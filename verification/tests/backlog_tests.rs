use stembot::backlog::poll_backlogs;
use stembot::backlog::process_backlog;
use stembot::backlog::push_message_collection_to_backlog;
use stembot::backlog::request_backlog;
use stembot::backlog::BacklogRequest;
use stembot::config::Configuration;
use stembot::config::PrivateHttp;
use stembot::config::PublicHttp;
use stembot::message::Message;
use stembot::message::MessageCollection;
use stembot::peering::Peer;
use stembot::routing::initialize_routes;
use stembot::routing::Route;
use stembot::state::Singleton;

fn test_configuration(id: &str) -> Configuration {
    Configuration {
        id: id.to_string(),
        peer: Vec::new(),
        ping: Vec::new(),
        trace: Vec::new(),
        maxrouteweight: 16,
        loglevel: "warn".to_string(),
        public_http: PublicHttp {
            secret: "SECRET-REDACTED".to_string(),
            tracing: false,
            host: "127.0.0.1".to_string(),
            port: 8080,
            endpoint: "/api".to_string(),
        },
        private_http: PrivateHttp {
            tracing: false,
            host: "127.0.0.1".to_string(),
            port: 8090,
            ticket_sync_endpoint: "/sync".to_string(),
            ticket_async_endpoint: "/async".to_string(),
        },
        ticketexpiration: 1000,
        broadcastexpiration: 1000,
        backlog_period: 10,
    }
}

fn node(id: &str) -> Singleton {
    let mut s = Singleton::new(test_configuration(id));
    initialize_routes(&mut s);
    s
}

fn batch(origin: &str, dest: Option<&str>, messages: Vec<Message>) -> MessageCollection {
    MessageCollection {
        messages,
        origin_id: origin.to_string(),
        destination_id: dest.map(|d| d.to_string()),
    }
}

#[test]
fn pushing_an_empty_batch_is_a_no_op() {
    let mut s = node("a");
    push_message_collection_to_backlog(batch("a", Some("e"), vec![]), &mut s);
    assert_eq!(s.backlog.len(), 0);
    push_message_collection_to_backlog(batch("a", Some("e"), vec![Message::Ping]), &mut s);
    assert_eq!(s.backlog.len(), 1);
}

#[test]
fn poll_backlogs_targets_only_polled_dialable_peers() {
    let mut s = node("a");
    s.peers.push(Peer {
        id: Some("b".to_string()),
        url: Some("http://b".to_string()),
        polling: true,
    });
    s.peers.push(Peer {
        id: Some("c".to_string()),
        url: Some("http://c".to_string()),
        polling: false,
    });
    s.peers.push(Peer { id: Some("d".to_string()), url: None, polling: true });
    poll_backlogs(&mut s);
    assert_eq!(s.backlog.len(), 1);
    assert_eq!(s.backlog[0].destination_id, Some("b".to_string()));
    assert_eq!(s.backlog[0].messages.len(), 1);
    match &s.backlog[0].messages[0] {
        Message::BacklogRequest(q) => assert_eq!(q.gateway_id, "a"),
        _ => panic!("expected a backlog request"),
    }
}

#[test]
fn request_backlog_hands_over_batches_routed_through_the_requester() {
    let mut s = node("a");
    s.routes.push(Route {
        gateway_id: "b".to_string(),
        destination_id: "e".to_string(),
        weight: Some(1),
    });
    push_message_collection_to_backlog(batch("a", Some("e"), vec![Message::Ping]), &mut s);
    push_message_collection_to_backlog(batch("a", Some("x"), vec![Message::Pong]), &mut s);
    let response = request_backlog(&mut s, BacklogRequest { gateway_id: "b".to_string() });
    assert_eq!(response.message_collections.len(), 1);
    assert_eq!(
        response.message_collections[0].destination_id,
        Some("e".to_string())
    );
    assert_eq!(s.backlog.len(), 1);
    assert_eq!(s.backlog[0].destination_id, Some("x".to_string()));
}

#[test]
fn backlog_condensation_merges_by_destination_and_origin() {
    let mut s = node("a");
    for _ in 0..10 {
        push_message_collection_to_backlog(batch("a", Some("e"), vec![Message::Ping]), &mut s);
    }
    let condensed = process_backlog(&mut s);
    assert_eq!(s.backlog.len(), 0);
    assert_eq!(condensed.len(), 1);
    assert_eq!(condensed[0].destination_id, Some("e".to_string()));
    assert_eq!(condensed[0].origin_id, "a");
    assert_eq!(condensed[0].messages.len(), 10);
    for m in &condensed[0].messages {
        assert!(matches!(m, Message::Ping));
    }
}

#[test]
fn backlog_condensation_keeps_distinct_origins_apart() {
    let mut s = node("a");
    push_message_collection_to_backlog(batch("a", Some("e"), vec![Message::Ping]), &mut s);
    push_message_collection_to_backlog(batch("b", Some("e"), vec![Message::Pong]), &mut s);
    push_message_collection_to_backlog(batch("a", None, vec![Message::Ping]), &mut s);
    let condensed = process_backlog(&mut s);
    assert_eq!(condensed.len(), 3);
}

#[test]
fn backlog_condensation_drops_empty_batches() {
    let mut s = node("a");
    s.backlog.push(batch("a", Some("e"), vec![]));
    s.backlog.push(batch("a", Some("e"), vec![Message::Ping]));
    let condensed = process_backlog(&mut s);
    assert_eq!(condensed.len(), 1);
    assert_eq!(condensed[0].messages.len(), 1);
}
