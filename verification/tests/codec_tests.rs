use stembot::backlog::BacklogRequest;
use stembot::backlog::BacklogResponse;
use stembot::broadcasting::Broadcast;
use stembot::broadcasting::BroadcastMessage;
use stembot::broadcasting::BroadcastRequest;
use stembot::broadcasting::BroadcastResponse;
use stembot::broadcasting::BroadcastResponseEntry;
use stembot::codec::decode_message_collection;
use stembot::codec::encode_message_collection;
use stembot::message::Message;
use stembot::message::MessageCollection;
use stembot::peering::Peer;
use stembot::peering::PeerQuery;
use stembot::routing::Route;
use stembot::routing::RouteAdvertisement;
use stembot::routing::RouteQuery;
use stembot::routing::RouteRecall;
use stembot::ticket::Ticket;
use stembot::ticket::TicketMessage;
use stembot::ticket::TicketQuery;
use stembot::ticket::TicketRequest;
use stembot::ticket::TicketResponse;
use stembot::tracing::Direction;
use stembot::tracing::Trace;
use stembot::tracing::TraceEvent;
use stembot::tracing::TraceRequest;
use stembot::tracing::TraceResponse;

fn assert_round_trip(mc: &MessageCollection) -> MessageCollection {
    let bytes = encode_message_collection(mc);
    let back = decode_message_collection(&bytes).expect("an encoded batch must decode");
    assert_eq!(back.origin_id, mc.origin_id);
    assert_eq!(back.destination_id, mc.destination_id);
    assert_eq!(back.messages.len(), mc.messages.len());
    let reencoded = encode_message_collection(&back);
    assert_eq!(reencoded, bytes);
    back
}

#[test]
fn round_trip_of_an_empty_batch() {
    let mc = MessageCollection {
        messages: vec![],
        origin_id: "a".to_string(),
        destination_id: None,
    };
    assert_round_trip(&mc);
}

#[test]
fn round_trip_of_plain_messages() {
    let mc = MessageCollection {
        messages: vec![
            Message::Ping,
            Message::Pong,
            Message::RouteRecall(RouteRecall { destination_id: "e".to_string() }),
            Message::BacklogRequest(BacklogRequest { gateway_id: "b".to_string() }),
        ],
        origin_id: "node-a".to_string(),
        destination_id: Some("node-b".to_string()),
    };
    let back = assert_round_trip(&mc);
    match &back.messages[2] {
        Message::RouteRecall(rr) => assert_eq!(rr.destination_id, "e"),
        _ => panic!("wrong variant after decoding"),
    }
}

#[test]
fn round_trip_of_route_advertisements() {
    let mc = MessageCollection {
        messages: vec![Message::RouteAdvertisement(RouteAdvertisement {
            routes: vec![
                Route {
                    gateway_id: "a".to_string(),
                    destination_id: "a".to_string(),
                    weight: None,
                },
                Route {
                    gateway_id: "b".to_string(),
                    destination_id: "e".to_string(),
                    weight: Some(4),
                },
            ],
        })],
        origin_id: "a".to_string(),
        destination_id: Some("b".to_string()),
    };
    let back = assert_round_trip(&mc);
    match &back.messages[0] {
        Message::RouteAdvertisement(a) => {
            assert_eq!(a.routes.len(), 2);
            assert_eq!(a.routes[0].weight, None);
            assert_eq!(a.routes[1].destination_id, "e");
            assert_eq!(a.routes[1].weight, Some(4));
        },
        _ => panic!("wrong variant after decoding"),
    }
}

#[test]
fn round_trip_of_trace_messages() {
    let mc = MessageCollection {
        messages: vec![
            Message::TraceRequest(TraceRequest { hop_count: 2, request_id: "t1".to_string() }),
            Message::TraceResponse(TraceResponse { hop_count: 3, request_id: "t1".to_string() }),
            Message::TraceEvent(TraceEvent {
                hop_count: 1,
                request_id: "t1".to_string(),
                local_time: 12345,
                id: "b".to_string(),
                direction: Direction::Outbound,
            }),
        ],
        origin_id: "a".to_string(),
        destination_id: Some("e".to_string()),
    };
    let back = assert_round_trip(&mc);
    match &back.messages[2] {
        Message::TraceEvent(e) => {
            assert_eq!(e.local_time, 12345);
            assert_eq!(e.direction, Direction::Outbound);
        },
        _ => panic!("wrong variant after decoding"),
    }
}

#[test]
fn round_trip_of_nested_backlog_responses() {
    let inner = MessageCollection {
        messages: vec![Message::Ping],
        origin_id: "a".to_string(),
        destination_id: Some("e".to_string()),
    };
    let mc = MessageCollection {
        messages: vec![Message::BacklogResponse(BacklogResponse {
            message_collections: vec![inner],
        })],
        origin_id: "b".to_string(),
        destination_id: Some("a".to_string()),
    };
    let back = assert_round_trip(&mc);
    match &back.messages[0] {
        Message::BacklogResponse(br) => {
            assert_eq!(br.message_collections.len(), 1);
            assert_eq!(br.message_collections[0].origin_id, "a");
            assert!(matches!(br.message_collections[0].messages[0], Message::Ping));
        },
        _ => panic!("wrong variant after decoding"),
    }
}

#[test]
fn round_trip_of_ticket_messages() {
    let stored = Ticket {
        request: TicketRequest {
            ticket_message: TicketMessage::Test,
            ticket_id: "k1".to_string(),
        },
        response: Some(TicketMessage::Test),
        destination_id: Some("e".to_string()),
        start_time: 5,
        stop_time: Some(9),
    };
    let trace = Trace {
        events: vec![],
        request_id: Some("t9".to_string()),
        destination_id: "e".to_string(),
        start_time: Some(1),
        stop_time: None,
    };
    let broadcast = Broadcast {
        request: BroadcastRequest {
            origin_id: Some("a".to_string()),
            request_id: "br1".to_string(),
            broadcast_message: BroadcastMessage::Ping,
        },
        responses: vec![BroadcastResponseEntry {
            origin_id: "b".to_string(),
            response: BroadcastResponse {
                request_id: "br1".to_string(),
                broadcast: BroadcastMessage::Pong,
                local_time: 77,
            },
        }],
    };
    let mc = MessageCollection {
        messages: vec![
            Message::TicketRequest(TicketRequest {
                ticket_message: TicketMessage::TicketQuery(TicketQuery {
                    tickets: Some(vec![stored]),
                }),
                ticket_id: "q1".to_string(),
            }),
            Message::TicketResponse(TicketResponse {
                ticket_message: TicketMessage::BeginTrace(trace),
                ticket_id: "q2".to_string(),
            }),
            Message::TicketRequest(TicketRequest {
                ticket_message: TicketMessage::RouteQuery(RouteQuery {
                    routes: None,
                    destination_ids: Some(vec!["e".to_string()]),
                    gateway_ids: None,
                }),
                ticket_id: "q3".to_string(),
            }),
            Message::TicketRequest(TicketRequest {
                ticket_message: TicketMessage::PeerQuery(PeerQuery {
                    peers: Some(vec![Peer {
                        id: Some("b".to_string()),
                        url: Some("http://b".to_string()),
                        polling: true,
                    }]),
                }),
                ticket_id: "q4".to_string(),
            }),
            Message::TicketRequest(TicketRequest {
                ticket_message: TicketMessage::DrainBroadcast(broadcast),
                ticket_id: "q5".to_string(),
            }),
        ],
        origin_id: "a".to_string(),
        destination_id: Some("e".to_string()),
    };
    let back = assert_round_trip(&mc);
    match &back.messages[0] {
        Message::TicketRequest(tq) => match &tq.ticket_message {
            TicketMessage::TicketQuery(q) => {
                let tickets = q.tickets.as_ref().unwrap();
                assert_eq!(tickets.len(), 1);
                assert_eq!(tickets[0].request.ticket_id, "k1");
                assert_eq!(tickets[0].stop_time, Some(9));
            },
            _ => panic!("wrong ticket payload after decoding"),
        },
        _ => panic!("wrong variant after decoding"),
    }
    match &back.messages[4] {
        Message::TicketRequest(tq) => match &tq.ticket_message {
            TicketMessage::DrainBroadcast(b) => {
                assert_eq!(b.responses.len(), 1);
                assert_eq!(b.responses[0].response.local_time, 77);
            },
            _ => panic!("wrong ticket payload after decoding"),
        },
        _ => panic!("wrong variant after decoding"),
    }
}

#[test]
fn round_trip_of_broadcast_messages() {
    let mc = MessageCollection {
        messages: vec![
            Message::BroadcastRequest(BroadcastRequest {
                origin_id: None,
                request_id: "br2".to_string(),
                broadcast_message: BroadcastMessage::Ping,
            }),
            Message::BroadcastResponse(BroadcastResponse {
                request_id: "br2".to_string(),
                broadcast: BroadcastMessage::Pong,
                local_time: 4242,
            }),
        ],
        origin_id: "c".to_string(),
        destination_id: None,
    };
    assert_round_trip(&mc);
}

#[test]
fn decoding_garbage_fails_cleanly() {
    assert!(decode_message_collection(&vec![]).is_none());
    assert!(decode_message_collection(&vec![1, 2, 3]).is_none());
    let mc = MessageCollection {
        messages: vec![Message::Ping],
        origin_id: "a".to_string(),
        destination_id: None,
    };
    let mut bytes = encode_message_collection(&mc);
    bytes.push(0);
    assert!(decode_message_collection(&bytes).is_none());
}

#[test]
fn round_trip_keeps_unicode_identities() {
    let mc = MessageCollection {
        messages: vec![Message::Ping],
        origin_id: "ノード-α".to_string(),
        destination_id: Some("șăptămâna".to_string()),
    };
    let back = assert_round_trip(&mc);
    assert_eq!(back.origin_id, "ノード-α");
}
