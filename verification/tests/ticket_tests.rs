use stembot::config::Configuration;
use stembot::config::PrivateHttp;
use stembot::config::PublicHttp;
use stembot::message::Message;
use stembot::routing::initialize_routes;
use stembot::routing::Route;
use stembot::state::Singleton;
use stembot::ticket::backoff_schedule;
use stembot::ticket::process_ticket_request;
use stembot::ticket::process_ticket_response;
use stembot::ticket::send_ticket;
use stembot::ticket::take_ticket_response;
use stembot::ticket::TicketMessage;
use stembot::ticket::TicketPoll;
use stembot::ticket::TicketRequest;
use stembot::ticket::TicketResponse;
use stembot::tracing::Trace;

fn test_configuration(id: &str) -> Configuration {
    Configuration {
        id: id.to_string(),
        peer: Vec::new(),
        ping: Vec::new(),
        trace: Vec::new(),
        maxrouteweight: 16,
        loglevel: "warn".to_string(),
        public_http: PublicHttp {
            secret: "SECRET-REDACTED".to_string(),
            tracing: false,
            host: "127.0.0.1".to_string(),
            port: 8080,
            endpoint: "/api".to_string(),
        },
        private_http: PrivateHttp {
            tracing: false,
            host: "127.0.0.1".to_string(),
            port: 8090,
            ticket_sync_endpoint: "/sync".to_string(),
            ticket_async_endpoint: "/async".to_string(),
        },
        ticketexpiration: 1000,
        broadcastexpiration: 1000,
        backlog_period: 10,
    }
}

fn node(id: &str) -> Singleton {
    let mut s = Singleton::new(test_configuration(id));
    initialize_routes(&mut s);
    s
}

#[test]
fn test_request_echoes() {
    let mut a = node("a");
    let response = process_ticket_request(
        TicketRequest { ticket_message: TicketMessage::Test, ticket_id: "k1".to_string() },
        &mut a,
        7,
    );
    assert_eq!(response.ticket_id, "k1");
    assert!(matches!(response.ticket_message, TicketMessage::Test));
    assert_eq!(a.backlog.len(), 0);
    assert_eq!(a.tickets.len(), 0);
}

#[test]
fn route_query_filters_by_destination() {
    let mut a = node("a");
    a.routes.push(Route {
        gateway_id: "b".to_string(),
        destination_id: "e".to_string(),
        weight: Some(4),
    });
    let query = stembot::routing::RouteQuery {
        routes: None,
        destination_ids: Some(vec!["e".to_string()]),
        gateway_ids: None,
    };
    let response = process_ticket_request(
        TicketRequest {
            ticket_message: TicketMessage::RouteQuery(query),
            ticket_id: "k2".to_string(),
        },
        &mut a,
        0,
    );
    match response.ticket_message {
        TicketMessage::RouteQuery(q) => {
            let routes = q.routes.unwrap();
            assert_eq!(routes.len(), 1);
            assert_eq!(routes[0].destination_id, "e");
        },
        _ => panic!("expected a filled route query"),
    }
}

#[test]
fn begin_trace_stores_and_probes() {
    let mut a = node("a");
    let trace = Trace {
        events: vec![],
        request_id: Some("t1".to_string()),
        destination_id: "e".to_string(),
        start_time: None,
        stop_time: None,
    };
    let response = process_ticket_request(
        TicketRequest {
            ticket_message: TicketMessage::BeginTrace(trace),
            ticket_id: "k3".to_string(),
        },
        &mut a,
        123,
    );
    match response.ticket_message {
        TicketMessage::BeginTrace(t) => {
            assert_eq!(t.request_id, Some("t1".to_string()));
            assert_eq!(t.start_time, Some(123));
        },
        _ => panic!("expected the stamped trace back"),
    }
    assert_eq!(a.traces.len(), 1);
    assert_eq!(a.traces[0].request_id, "t1");
    assert_eq!(a.backlog.len(), 1);
    assert_eq!(a.backlog[0].destination_id, Some("e".to_string()));
    match &a.backlog[0].messages[0] {
        Message::TraceRequest(t) => {
            assert_eq!(t.hop_count, 0);
            assert_eq!(t.request_id, "t1");
        },
        _ => panic!("expected a probe"),
    }
}

#[test]
fn drain_trace_consumes_the_stored_record() {
    let mut a = node("a");
    let trace = Trace {
        events: vec![],
        request_id: Some("t2".to_string()),
        destination_id: "e".to_string(),
        start_time: None,
        stop_time: None,
    };
    process_ticket_request(
        TicketRequest {
            ticket_message: TicketMessage::BeginTrace(trace),
            ticket_id: "k4".to_string(),
        },
        &mut a,
        1,
    );
    let probe = Trace {
        events: vec![],
        request_id: Some("t2".to_string()),
        destination_id: "e".to_string(),
        start_time: None,
        stop_time: None,
    };
    let response = process_ticket_request(
        TicketRequest {
            ticket_message: TicketMessage::DrainTrace(probe),
            ticket_id: "k5".to_string(),
        },
        &mut a,
        2,
    );
    match response.ticket_message {
        TicketMessage::DrainTrace(t) => assert_eq!(t.start_time, Some(1)),
        _ => panic!("expected the stored trace back"),
    }
    assert_eq!(a.traces.len(), 0);
}

#[test]
fn send_then_answer_then_take_consumes_the_ticket() {
    let mut a = node("a");
    let id = send_ticket(
        TicketMessage::Test,
        Some("k6".to_string()),
        Some("e".to_string()),
        &mut a,
        10,
    );
    assert_eq!(id, "k6");
    assert_eq!(a.tickets.len(), 1);
    assert_eq!(a.backlog.len(), 1);
    match &a.backlog[0].messages[0] {
        Message::TicketRequest(tq) => assert_eq!(tq.ticket_id, "k6"),
        _ => panic!("expected the job on the wire"),
    }
    assert!(matches!(take_ticket_response(&"k6".to_string(), &mut a), TicketPoll::Pending));
    process_ticket_response(
        TicketResponse { ticket_message: TicketMessage::Test, ticket_id: "k6".to_string() },
        &mut a,
        20,
    );
    assert_eq!(a.tickets[0].ticket.stop_time, Some(20));
    match take_ticket_response(&"k6".to_string(), &mut a) {
        TicketPoll::Ready(m) => assert!(matches!(m, TicketMessage::Test)),
        _ => panic!("the answer should be ready"),
    }
    assert_eq!(a.tickets.len(), 0);
    assert!(matches!(take_ticket_response(&"k6".to_string(), &mut a), TicketPoll::Missing));
}

#[test]
fn reopening_a_ticket_id_replaces_the_stored_ticket() {
    let mut a = node("a");
    send_ticket(
        TicketMessage::Test,
        Some("k7".to_string()),
        Some("e".to_string()),
        &mut a,
        10,
    );
    send_ticket(
        TicketMessage::Test,
        Some("k7".to_string()),
        Some("e".to_string()),
        &mut a,
        30,
    );
    assert_eq!(a.tickets.len(), 1);
    assert_eq!(a.tickets[0].ticket.start_time, 30);
    process_ticket_response(
        TicketResponse { ticket_message: TicketMessage::Test, ticket_id: "k7".to_string() },
        &mut a,
        40,
    );
    match take_ticket_response(&"k7".to_string(), &mut a) {
        TicketPoll::Ready(m) => assert!(matches!(m, TicketMessage::Test)),
        _ => panic!("the fresh ticket should hold the answer"),
    }
    assert_eq!(a.tickets.len(), 0);
}

#[test]
fn unsolicited_ticket_answer_is_dropped() {
    let mut a = node("a");
    process_ticket_response(
        TicketResponse { ticket_message: TicketMessage::Test, ticket_id: "zz".to_string() },
        &mut a,
        20,
    );
    assert_eq!(a.tickets.len(), 0);
}

#[test]
fn backoff_schedule_doubles_and_stays_bounded() {
    let schedule = backoff_schedule(1000);
    assert_eq!(schedule[0], 10);
    for k in 1..schedule.len() {
        assert_eq!(schedule[k], 2 * schedule[k - 1]);
        assert!(schedule[k] < 1000);
    }
    let total: u64 = schedule.iter().sum();
    assert!(total < 2 * 1000 + 10);
    assert_eq!(*schedule.last().unwrap(), 640);
}

#[test]
fn backoff_schedule_is_empty_for_tiny_expirations() {
    assert!(backoff_schedule(5).is_empty());
    assert!(backoff_schedule(10).is_empty());
    assert_eq!(backoff_schedule(11).len(), 1);
}
