use stembot::broadcasting::poll_broadcasts;
use stembot::broadcasting::process_broadcast_request;
use stembot::broadcasting::process_broadcast_response;
use stembot::broadcasting::Broadcast;
use stembot::broadcasting::BroadcastEntry;
use stembot::broadcasting::BroadcastMessage;
use stembot::broadcasting::BroadcastRequest;
use stembot::broadcasting::BroadcastResponse;
use stembot::broadcasting::HistoryEntry;
use stembot::config::Configuration;
use stembot::config::PrivateHttp;
use stembot::config::PublicHttp;
use stembot::message::Message;
use stembot::routing::initialize_routes;
use stembot::routing::Route;
use stembot::state::Singleton;

fn test_configuration(id: &str) -> Configuration {
    Configuration {
        id: id.to_string(),
        peer: Vec::new(),
        ping: Vec::new(),
        trace: Vec::new(),
        maxrouteweight: 16,
        loglevel: "warn".to_string(),
        public_http: PublicHttp {
            secret: "SECRET-REDACTED".to_string(),
            tracing: false,
            host: "127.0.0.1".to_string(),
            port: 8080,
            endpoint: "/api".to_string(),
        },
        private_http: PrivateHttp {
            tracing: false,
            host: "127.0.0.1".to_string(),
            port: 8090,
            ticket_sync_endpoint: "/sync".to_string(),
            ticket_async_endpoint: "/async".to_string(),
        },
        ticketexpiration: 1000,
        broadcastexpiration: 1000,
        backlog_period: 10,
    }
}

fn node(id: &str) -> Singleton {
    let mut s = Singleton::new(test_configuration(id));
    initialize_routes(&mut s);
    s
}

fn request(rid: &str, origin: Option<&str>) -> BroadcastRequest {
    BroadcastRequest {
        origin_id: origin.map(|o| o.to_string()),
        request_id: rid.to_string(),
        broadcast_message: BroadcastMessage::Ping,
    }
}

#[test]
fn first_seen_flood_is_remembered_forwarded_and_answered() {
    let mut b = node("b");
    b.routes.push(Route {
        gateway_id: "a".to_string(),
        destination_id: "a".to_string(),
        weight: Some(1),
    });
    b.routes.push(Route {
        gateway_id: "c".to_string(),
        destination_id: "c".to_string(),
        weight: Some(1),
    });
    process_broadcast_request(&mut b, request("br1", Some("a")), 100);
    assert_eq!(b.broadcast_history.len(), 1);
    assert_eq!(b.broadcast_history[0].request_id, "br1");
    assert_eq!(b.broadcast_history[0].time, 100);
    // one forward per distinct gateway (b itself, a, c), then the answer
    assert_eq!(b.backlog.len(), 4);
    for k in 0..3 {
        match &b.backlog[k].messages[0] {
            Message::BroadcastRequest(q) => assert_eq!(q.request_id, "br1"),
            _ => panic!("expected the flood to be re-queued"),
        }
    }
    assert_eq!(b.backlog[3].destination_id, Some("a".to_string()));
    match &b.backlog[3].messages[0] {
        Message::BroadcastResponse(r) => {
            assert_eq!(r.request_id, "br1");
            assert!(matches!(r.broadcast, BroadcastMessage::Pong));
            assert_eq!(r.local_time, 100);
        },
        _ => panic!("expected an answer toward the collector"),
    }
}

#[test]
fn second_sighting_of_a_flood_changes_nothing() {
    let mut b = node("b");
    process_broadcast_request(&mut b, request("br2", Some("a")), 100);
    let backlog_len = b.backlog.len();
    let history_len = b.broadcast_history.len();
    process_broadcast_request(&mut b, request("br2", Some("a")), 200);
    assert_eq!(b.backlog.len(), backlog_len);
    assert_eq!(b.broadcast_history.len(), history_len);
    assert_eq!(b.broadcast_history[0].time, 100);
}

#[test]
fn flood_without_collector_is_not_answered() {
    let mut b = node("b");
    process_broadcast_request(&mut b, request("br3", None), 100);
    // only the forward toward b's own gateway; no answer
    assert_eq!(b.backlog.len(), 1);
    match &b.backlog[0].messages[0] {
        Message::BroadcastRequest(_) => (),
        _ => panic!("only the flood should be queued"),
    }
}

#[test]
fn collected_answer_lands_under_its_broadcast() {
    let mut a = node("a");
    a.broadcasts.push(BroadcastEntry {
        request_id: "br4".to_string(),
        broadcast: Broadcast { request: request("br4", Some("a")), responses: vec![] },
    });
    let answer = BroadcastResponse {
        request_id: "br4".to_string(),
        broadcast: BroadcastMessage::Pong,
        local_time: 500,
    };
    process_broadcast_response(&mut a, answer, "b".to_string());
    assert_eq!(a.broadcasts[0].broadcast.responses.len(), 1);
    assert_eq!(a.broadcasts[0].broadcast.responses[0].origin_id, "b");
    // a second answer from the same node overwrites, not duplicates
    let again = BroadcastResponse {
        request_id: "br4".to_string(),
        broadcast: BroadcastMessage::Pong,
        local_time: 600,
    };
    process_broadcast_response(&mut a, again, "b".to_string());
    assert_eq!(a.broadcasts[0].broadcast.responses.len(), 1);
    assert_eq!(a.broadcasts[0].broadcast.responses[0].response.local_time, 600);
}

#[test]
fn unsolicited_collected_answer_is_dropped() {
    let mut a = node("a");
    let answer = BroadcastResponse {
        request_id: "zz".to_string(),
        broadcast: BroadcastMessage::Pong,
        local_time: 500,
    };
    process_broadcast_response(&mut a, answer, "b".to_string());
    assert_eq!(a.broadcasts.len(), 0);
}

#[test]
fn history_aging_drops_stale_and_future_entries() {
    let mut a = node("a");
    a.configuration.broadcastexpiration = 100;
    a.broadcast_history.push(HistoryEntry { request_id: "old".to_string(), time: 0 });
    a.broadcast_history.push(HistoryEntry { request_id: "fresh".to_string(), time: 950 });
    a.broadcast_history.push(HistoryEntry { request_id: "future".to_string(), time: 2000 });
    poll_broadcasts(&mut a, 1000);
    assert_eq!(a.broadcast_history.len(), 1);
    assert_eq!(a.broadcast_history[0].request_id, "fresh");
}
