use stembot::backlog::push_message_collection_to_backlog;
use stembot::config::Configuration;
use stembot::config::PrivateHttp;
use stembot::config::PublicHttp;
use stembot::message::Message;
use stembot::message::MessageCollection;
use stembot::peering::Peer;
use stembot::processing::complete_forward;
use stembot::processing::process_message_collection;
use stembot::routing::initialize_routes;
use stembot::routing::Route;
use stembot::state::Singleton;

fn test_configuration(id: &str) -> Configuration {
    Configuration {
        id: id.to_string(),
        peer: Vec::new(),
        ping: Vec::new(),
        trace: Vec::new(),
        maxrouteweight: 16,
        loglevel: "warn".to_string(),
        public_http: PublicHttp {
            secret: "SECRET-REDACTED".to_string(),
            tracing: false,
            host: "127.0.0.1".to_string(),
            port: 8080,
            endpoint: "/api".to_string(),
        },
        private_http: PrivateHttp {
            tracing: false,
            host: "127.0.0.1".to_string(),
            port: 8090,
            ticket_sync_endpoint: "/sync".to_string(),
            ticket_async_endpoint: "/async".to_string(),
        },
        ticketexpiration: 1000,
        broadcastexpiration: 1000,
        backlog_period: 10,
    }
}

fn node(id: &str) -> Singleton {
    let mut s = Singleton::new(test_configuration(id));
    initialize_routes(&mut s);
    s
}

fn batch(origin: &str, dest: Option<&str>, messages: Vec<Message>) -> MessageCollection {
    MessageCollection {
        messages,
        origin_id: origin.to_string(),
        destination_id: dest.map(|d| d.to_string()),
    }
}

#[test]
fn self_addressed_batch_is_processed_locally_without_forwarding() {
    let mut a = node("a");
    let (outbound, forward) =
        process_message_collection(batch("b", Some("a"), vec![Message::Ping]), &mut a, 0);
    assert!(forward.is_none());
    assert_eq!(outbound.origin_id, "a");
    assert_eq!(outbound.destination_id, Some("b".to_string()));
    assert_eq!(outbound.messages.len(), 1);
    assert!(matches!(outbound.messages[0], Message::Pong));
}

#[test]
fn batch_without_destination_is_processed_at_the_recipient() {
    let mut a = node("a");
    let (outbound, forward) =
        process_message_collection(batch("b", None, vec![Message::Ping]), &mut a, 0);
    assert!(forward.is_none());
    assert!(matches!(outbound.messages[0], Message::Pong));
}

#[test]
fn routed_batch_becomes_a_forwarding_order() {
    let mut a = node("a");
    a.peers.push(Peer {
        id: Some("b".to_string()),
        url: Some("http://b".to_string()),
        polling: false,
    });
    a.routes.push(Route {
        gateway_id: "b".to_string(),
        destination_id: "e".to_string(),
        weight: Some(4),
    });
    let (outbound, forward) =
        process_message_collection(batch("a", Some("e"), vec![Message::Ping]), &mut a, 0);
    assert!(outbound.messages.is_empty());
    let order = forward.expect("a routed batch must be handed to the transport");
    assert_eq!(order.url, "http://b");
    assert_eq!(order.message_collection.destination_id, Some("e".to_string()));
    assert_eq!(order.message_collection.messages.len(), 1);
}

#[test]
fn routed_batch_without_endpoint_waits_in_the_backlog() {
    let mut a = node("a");
    a.peers.push(Peer { id: Some("b".to_string()), url: None, polling: true });
    a.routes.push(Route {
        gateway_id: "b".to_string(),
        destination_id: "e".to_string(),
        weight: Some(4),
    });
    let (_, forward) =
        process_message_collection(batch("a", Some("e"), vec![Message::Ping]), &mut a, 0);
    assert!(forward.is_none());
    assert_eq!(a.backlog.len(), 1);
    assert_eq!(a.backlog[0].destination_id, Some("e".to_string()));
}

#[test]
fn unroutable_batch_issues_recalls_and_waits() {
    let mut a = node("a");
    a.peers.push(Peer {
        id: Some("b".to_string()),
        url: Some("http://b".to_string()),
        polling: false,
    });
    a.peers.push(Peer {
        id: Some("c".to_string()),
        url: Some("http://c".to_string()),
        polling: false,
    });
    let (_, forward) =
        process_message_collection(batch("a", Some("e"), vec![Message::Ping]), &mut a, 0);
    assert!(forward.is_none());
    // one recall per known peer, then the batch itself
    assert_eq!(a.backlog.len(), 3);
    for k in 0..2 {
        assert_eq!(a.backlog[k].messages.len(), 1);
        match &a.backlog[k].messages[0] {
            Message::RouteRecall(rr) => assert_eq!(rr.destination_id, "e"),
            _ => panic!("expected a route recall"),
        }
    }
    assert_eq!(a.backlog[2].destination_id, Some("e".to_string()));
}

#[test]
fn transport_failure_drops_routes_and_requeues_the_batch() {
    let mut a = node("a");
    a.peers.push(Peer {
        id: Some("b".to_string()),
        url: Some("http://b".to_string()),
        polling: false,
    });
    a.routes.push(Route {
        gateway_id: "b".to_string(),
        destination_id: "b".to_string(),
        weight: Some(1),
    });
    a.routes.push(Route {
        gateway_id: "x".to_string(),
        destination_id: "b".to_string(),
        weight: Some(9),
    });
    a.routes.push(Route {
        gateway_id: "b".to_string(),
        destination_id: "e".to_string(),
        weight: Some(4),
    });
    let (_, forward) =
        process_message_collection(batch("a", Some("e"), vec![Message::Ping]), &mut a, 0);
    let order = forward.expect("the batch should have been routed through b");
    complete_forward(order, None, &mut a);
    // the batch waits in the backlog for the next attempt; the detour row
    // toward the dead peer goes, while the row whose destination equals
    // its gateway is deliberately retained
    assert_eq!(a.backlog.len(), 1);
    assert_eq!(a.backlog[0].destination_id, Some("e".to_string()));
    assert_eq!(a.routes.len(), 3);
    for r in &a.routes {
        assert!(!(r.destination_id == "b" && r.gateway_id == "x"));
    }
}

#[test]
fn transport_reply_is_queued_for_processing() {
    let mut a = node("a");
    a.peers.push(Peer {
        id: Some("b".to_string()),
        url: Some("http://b".to_string()),
        polling: false,
    });
    a.routes.push(Route {
        gateway_id: "b".to_string(),
        destination_id: "e".to_string(),
        weight: Some(4),
    });
    let (_, forward) =
        process_message_collection(batch("a", Some("e"), vec![Message::Ping]), &mut a, 0);
    let order = forward.unwrap();
    let reply = batch("e", Some("a"), vec![Message::Pong]);
    complete_forward(order, Some(reply), &mut a);
    assert_eq!(a.backlog.len(), 1);
    assert!(matches!(a.backlog[0].messages[0], Message::Pong));
    assert_eq!(a.routes.len(), 2);
}

#[test]
fn two_nodes_exchange_ping_for_pong_through_the_backlog() {
    let mut a = node("a");
    let mut b = node("b");
    a.peers.push(Peer {
        id: Some("b".to_string()),
        url: Some("http://b".to_string()),
        polling: false,
    });
    a.routes.push(Route {
        gateway_id: "b".to_string(),
        destination_id: "b".to_string(),
        weight: Some(1),
    });
    push_message_collection_to_backlog(batch("a", Some("b"), vec![Message::Ping]), &mut a);
    let batches = stembot::backlog::process_backlog(&mut a);
    assert_eq!(batches.len(), 1);
    let mut pong_arrived = false;
    for mc in batches {
        let (outbound, forward) = process_message_collection(mc, &mut a, 0);
        push_message_collection_to_backlog(outbound, &mut a);
        if let Some(order) = forward {
            assert_eq!(order.url, "http://b");
            let copy = stembot::codec::decode_message_collection(
                &stembot::codec::encode_message_collection(&order.message_collection),
            )
            .unwrap();
            let (reply, b_forward) = process_message_collection(copy, &mut b, 0);
            assert!(b_forward.is_none());
            complete_forward(order, Some(reply), &mut a);
        }
    }
    // the pong addressed to a now waits in a's backlog
    for mc in &a.backlog {
        if mc.origin_id == "b" && matches!(mc.messages[0], Message::Pong) {
            pong_arrived = true;
        }
    }
    assert!(pong_arrived);
}

#[test]
fn trace_probe_gains_a_hop_and_a_report_in_transit() {
    let mut b = node("b");
    b.peers.push(Peer {
        id: Some("c".to_string()),
        url: Some("http://c".to_string()),
        polling: false,
    });
    b.routes.push(Route {
        gateway_id: "c".to_string(),
        destination_id: "e".to_string(),
        weight: Some(2),
    });
    let probe = Message::TraceRequest(stembot::tracing::TraceRequest {
        hop_count: 0,
        request_id: "t1".to_string(),
    });
    let (_, forward) = process_message_collection(batch("a", Some("e"), vec![probe]), &mut b, 50);
    let order = forward.expect("the probe should be forwarded");
    match &order.message_collection.messages[0] {
        Message::TraceRequest(t) => assert_eq!(t.hop_count, 1),
        _ => panic!("the probe should still lead the batch"),
    }
    assert_eq!(b.backlog.len(), 1);
    assert_eq!(b.backlog[0].destination_id, Some("a".to_string()));
    match &b.backlog[0].messages[0] {
        Message::TraceEvent(e) => {
            assert_eq!(e.hop_count, 1);
            assert_eq!(e.id, "b");
            assert_eq!(e.local_time, 50);
            assert_eq!(e.direction, stembot::tracing::Direction::Outbound);
        },
        _ => panic!("expected a hop report"),
    }
}
