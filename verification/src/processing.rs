use vstd::prelude::*;

use crate::backlog::effective_destination;
use crate::backlog::push_message_collection_to_backlog;
use crate::backlog::request_backlog;
use crate::backlog::BacklogResponse;
use crate::broadcasting::find_broadcast_from;
use crate::broadcasting::find_response_from;
use crate::broadcasting::history_contains;
use crate::broadcasting::process_broadcast_request;
use crate::broadcasting::process_broadcast_response;
use crate::broadcasting::BroadcastResponseEntry;
use crate::message::Message;
use crate::message::MessageCollection;
use crate::peering::first_url_from;
use crate::peering::lookup_peer_url;
use crate::peering::Peer;
use crate::routing::apply_advertisement;
use crate::routing::recall_kept;
use crate::routing::remove_routes_by_gateway_and_destination;
use crate::routing::resolve_gateway_id;
use crate::routing::route_table_wf;
use crate::routing::spec_resolve;
use crate::routing::RouteAdvertisement;
use crate::seq_util::filter_map;
use crate::state::Singleton;
use crate::ticket::find_ticket_from;
use crate::ticket::process_ticket_request;
use crate::ticket::process_ticket_response;
use crate::ticket::ticket_request_step;
use crate::ticket::TicketRequest;
use crate::tracing::find_trace_from;
use crate::tracing::Direction;
use crate::tracing::Trace;
use crate::tracing::TraceEntry;
use crate::tracing::TraceEvent;
use crate::tracing::TraceResponse;

verus! {

/// An instruction to the transport: send `message_collection` to `url`
/// and report what came back through `complete_forward`.
pub struct ForwardOrder {
    pub url: String,
    pub message_collection: MessageCollection,
}

/// What the transit-time pass leaves of one message: probes and replies
/// have their hop count bumped (when it can be), everything else stays.
pub open spec fn promiscuous_one(m: Message) -> Message {
    match m {
        Message::TraceRequest(t) => if t.hop_count < usize::MAX {
            Message::TraceRequest(
                crate::tracing::TraceRequest {
                    hop_count: (t.hop_count + 1) as usize,
                    request_id: t.request_id,
                },
            )
        } else {
            m
        },
        Message::TraceResponse(t) => if t.hop_count < usize::MAX {
            Message::TraceResponse(
                TraceResponse { hop_count: (t.hop_count + 1) as usize, request_id: t.request_id },
            )
        } else {
            m
        },
        _ => m,
    }
}

/// True when the transit-time pass reports a hop for this message: an
/// outbound report for every probe, an inbound report for every reply of
/// a batch that has an explicit destination to send it to.
pub open spec fn promiscuous_reports(m: Message, dest: Option<String>) -> bool {
    match m {
        Message::TraceRequest(t) => t.hop_count < usize::MAX,
        Message::TraceResponse(t) => t.hop_count < usize::MAX && dest is Some,
        _ => false,
    }
}

/// The hop report queued for one probed message: a single `TraceEvent`
/// naming this node, addressed to the probe's initiator (outbound) or the
/// reply's destination (inbound).
pub open spec fn promiscuous_event_matches(
    mc: MessageCollection,
    m: Message,
    local: String,
    origin: String,
    dest: Option<String>,
    now: u64,
) -> bool {
    match m {
        Message::TraceRequest(t) => mc.origin_id == local && mc.destination_id == Some(origin)
            && mc.messages@.len() == 1 && mc.messages@[0] == Message::TraceEvent(
            TraceEvent {
                hop_count: (t.hop_count + 1) as usize,
                request_id: t.request_id,
                local_time: now,
                id: local,
                direction: Direction::Outbound,
            },
        ),
        Message::TraceResponse(t) => mc.origin_id == local && mc.destination_id == dest
            && mc.messages@.len() == 1 && mc.messages@[0] == Message::TraceEvent(
            TraceEvent {
                hop_count: (t.hop_count + 1) as usize,
                request_id: t.request_id,
                local_time: now,
                id: local,
                direction: Direction::Inbound,
            },
        ),
        _ => false,
    }
}

/// The hop reports the transit-time pass queues for a whole batch, in
/// message order, appended to `backlog0`.
pub open spec fn promiscuous_pushes(
    backlog0: Seq<MessageCollection>,
    backlog1: Seq<MessageCollection>,
    messages: Seq<Message>,
    local: String,
    origin: String,
    dest: Option<String>,
    now: u64,
) -> bool {
    let reported = filter_map(
        messages,
        |m: Message| promiscuous_reports(m, dest),
        |m: Message| m,
    );
    &&& backlog1.len() == backlog0.len() + reported.len()
    &&& backlog1.take(backlog0.len() as int) == backlog0
    &&& forall|k: int|
        0 <= k < reported.len() ==> promiscuous_event_matches(
            #[trigger] backlog1[backlog0.len() + k],
            reported[k],
            local,
            origin,
            dest,
            now,
        )
}

/// A batch's messages after the transit-time pass, message by message.
pub open spec fn promiscuous_all(ms: Seq<Message>) -> Seq<Message> {
    Seq::new(ms.len(), |i: int| promiscuous_one(ms[i]))
}

/// What the transit-time pass over batch `mc` does to the node: the hop
/// reports of `mc`'s messages are queued, and nothing else moves.
pub open spec fn promiscuous_pass(
    s0: Singleton,
    s1: Singleton,
    mc: MessageCollection,
    now: u64,
) -> bool {
    &&& promiscuous_pushes(
        s0.backlog@,
        s1.backlog@,
        mc.messages@,
        s0.configuration.id,
        mc.origin_id,
        mc.destination_id,
        now,
    )
    &&& s1.configuration == s0.configuration
    &&& s1.peers@ == s0.peers@
    &&& s1.routes@ == s0.routes@
    &&& s1.tickets@ == s0.tickets@
    &&& s1.traces@ == s0.traces@
    &&& s1.broadcasts@ == s0.broadcasts@
    &&& s1.broadcast_history@ == s0.broadcast_history@
}

/// True when `b` is `mc` as the transit-time pass leaves it: the same
/// addressing, each message bumped.
pub open spec fn is_promiscuous_batch(b: MessageCollection, mc: MessageCollection) -> bool {
    &&& b.origin_id == mc.origin_id
    &&& b.destination_id == mc.destination_id
    &&& b.messages@ == promiscuous_all(mc.messages@)
}

/// The transit-time pass over an inbound batch: bump the hop count of
/// every probe and reply, and queue one hop report for each — toward the
/// batch's origin for probes, toward its destination for replies.
pub fn decode_promiscuous_messages(
    singleton: &mut Singleton,
    inbound: &mut MessageCollection,
    now_millis: u64,
)
    ensures
        final(inbound).origin_id == old(inbound).origin_id,
        final(inbound).destination_id == old(inbound).destination_id,
        final(inbound).messages@.len() == old(inbound).messages@.len(),
        forall|i: int|
            0 <= i < old(inbound).messages@.len() ==> final(inbound).messages@[i]
                == promiscuous_one(#[trigger] old(inbound).messages@[i]),
        promiscuous_pushes(
            old(singleton).backlog@,
            final(singleton).backlog@,
            old(inbound).messages@,
            old(singleton).configuration.id,
            old(inbound).origin_id,
            old(inbound).destination_id,
            now_millis,
        ),
        final(singleton).configuration == old(singleton).configuration,
        final(singleton).peers@ == old(singleton).peers@,
        final(singleton).routes@ == old(singleton).routes@,
        final(singleton).tickets@ == old(singleton).tickets@,
        final(singleton).traces@ == old(singleton).traces@,
        final(singleton).broadcasts@ == old(singleton).broadcasts@,
        final(singleton).broadcast_history@ == old(singleton).broadcast_history@,
{
    let ghost messages0 = inbound.messages@;
    let ghost backlog0 = singleton.backlog@;
    let ghost local = singleton.configuration.id;
    let ghost origin0 = inbound.origin_id;
    let ghost dest0 = inbound.destination_id;
    let ghost keep = |m: Message| promiscuous_reports(m, dest0);
    let ghost fid = |m: Message| m;
    let mut i: usize = 0;
    while i < inbound.messages.len()
        invariant
            0 <= i <= inbound.messages.len(),
            inbound.origin_id == origin0,
            inbound.destination_id == dest0,
            inbound.messages@.len() == messages0.len(),
            forall|k: int|
                0 <= k < i ==> inbound.messages@[k] == promiscuous_one(#[trigger] messages0[k]),
            forall|k: int| i <= k < messages0.len() ==> inbound.messages@[k] == messages0[k],
            keep == (|m: Message| promiscuous_reports(m, dest0)),
            fid == (|m: Message| m),
            local == singleton.configuration.id,
            singleton.configuration == old(singleton).configuration,
            singleton.peers@ == old(singleton).peers@,
            singleton.routes@ == old(singleton).routes@,
            singleton.tickets@ == old(singleton).tickets@,
            singleton.traces@ == old(singleton).traces@,
            singleton.broadcasts@ == old(singleton).broadcasts@,
            singleton.broadcast_history@ == old(singleton).broadcast_history@,
            backlog0 == old(singleton).backlog@,
            singleton.backlog@.len() == backlog0.len() + filter_map(
                messages0.take(i as int),
                keep,
                fid,
            ).len(),
            singleton.backlog@.take(backlog0.len() as int) == backlog0,
            forall|k: int|
                0 <= k < filter_map(messages0.take(i as int), keep, fid).len()
                    ==> promiscuous_event_matches(
                    #[trigger] singleton.backlog@[backlog0.len() + k],
                    filter_map(messages0.take(i as int), keep, fid)[k],
                    local,
                    origin0,
                    dest0,
                    now_millis,
                ),
        decreases inbound.messages.len() - i,
    {
        proof {
            crate::seq_util::lemma_filter_map_take_step(messages0, keep, fid, i as int);
        }
        let m = inbound.messages.remove(i);
        match m {
            Message::TraceRequest(mut t) => {
                if t.hop_count < usize::MAX {
                    let event = t.process(singleton, now_millis);
                    let report = MessageCollection {
                        messages: vec![Message::TraceEvent(event)],
                        origin_id: singleton.configuration.id.clone(),
                        destination_id: Some(inbound.origin_id.clone()),
                    };
                    singleton.backlog.push(report);
                    proof {
                        assert(singleton.backlog@.take(backlog0.len() as int) =~= backlog0);
                    }
                }
                inbound.messages.insert(i, Message::TraceRequest(t));
            },
            Message::TraceResponse(mut t) => {
                if t.hop_count < usize::MAX {
                    let event = t.process(singleton, now_millis);
                    let has_dest = match &inbound.destination_id {
                        Some(_) => true,
                        None => false,
                    };
                    if has_dest {
                        let report = MessageCollection {
                            messages: vec![Message::TraceEvent(event)],
                            origin_id: singleton.configuration.id.clone(),
                            destination_id: match &inbound.destination_id {
                                Some(d) => Some(d.clone()),
                                None => None,
                            },
                        };
                        singleton.backlog.push(report);
                        proof {
                            assert(singleton.backlog@.take(backlog0.len() as int) =~= backlog0);
                        }
                    }
                }
                inbound.messages.insert(i, Message::TraceResponse(t));
            },
            other => {
                inbound.messages.insert(i, other);
            },
        }
        proof {
            assert(inbound.messages@[i as int] == promiscuous_one(messages0[i as int]));
            assert(forall|k: int|
                0 <= k < i ==> inbound.messages@[k] == promiscuous_one(#[trigger] messages0[k]));
        }
        i = i + 1;
    }
    proof {
        assert(messages0.take(messages0.len() as int) =~= messages0);
    }
}

/// What storing a ticket answer does, lifted from the ticket table
/// operation: the stored ticket under the answer's id learns the answer
/// and its stop time; nothing else moves.
pub open spec fn ticket_response_step(
    s0: Singleton,
    s1: Singleton,
    tr: crate::ticket::TicketResponse,
    now: u64,
) -> bool {
    &&& match find_ticket_from(s0.tickets@, tr.ticket_id@, 0) {
        None => s1.tickets@ == s0.tickets@,
        Some(i) => {
            &&& s1.tickets@.len() == s0.tickets@.len()
            &&& forall|k: int| 0 <= k < s0.tickets@.len() && k != i ==> s1.tickets@[k] == s0.tickets@[k]
            &&& s1.tickets@[i].ticket_id == s0.tickets@[i].ticket_id
            &&& s1.tickets@[i].ticket.request == s0.tickets@[i].ticket.request
            &&& s1.tickets@[i].ticket.response == Some(tr.ticket_message)
            &&& s1.tickets@[i].ticket.stop_time == Some(now)
        },
    }
    &&& s1.configuration == s0.configuration
    &&& s1.peers@ == s0.peers@
    &&& s1.routes@ == s0.routes@
    &&& s1.backlog@ == s0.backlog@
    &&& s1.traces@ == s0.traces@
    &&& s1.broadcasts@ == s0.broadcasts@
    &&& s1.broadcast_history@ == s0.broadcast_history@
}

/// What one locally-delivered message does to the node and to the reply
/// batch under construction.
pub open spec fn selective_step(
    s0: Singleton,
    s1: Singleton,
    m: Message,
    origin: String,
    out0: Seq<Message>,
    out1: Seq<Message>,
    now: u64,
) -> bool {
    match m {
        Message::Ping => s1 == s0 && out1 == out0.push(Message::Pong),
        Message::Pong => s1 == s0 && out1 == out0,
        Message::RouteAdvertisement(adv) => {
            &&& s1.routes@ == apply_advertisement(
                s0.routes@,
                adv.routes@,
                origin,
                s0.configuration.id@,
            )
            &&& out1.len() == out0.len() + 1
            &&& out1.take(out0.len() as int) == out0
            &&& out1.last() matches Message::RouteAdvertisement(a2) && a2.routes@ == s1.routes@
            &&& s1.configuration == s0.configuration
            &&& s1.peers@ == s0.peers@
            &&& s1.backlog@ == s0.backlog@
            &&& s1.tickets@ == s0.tickets@
            &&& s1.traces@ == s0.traces@
            &&& s1.broadcasts@ == s0.broadcasts@
            &&& s1.broadcast_history@ == s0.broadcast_history@
        },
        Message::RouteRecall(rr) => {
            &&& s1.routes@ == filter_map(
                s0.routes@,
                recall_kept(origin@, rr.destination_id@),
                |r: crate::routing::Route| r,
            )
            &&& out1 == out0
            &&& s1.configuration == s0.configuration
            &&& s1.peers@ == s0.peers@
            &&& s1.backlog@ == s0.backlog@
            &&& s1.tickets@ == s0.tickets@
            &&& s1.traces@ == s0.traces@
            &&& s1.broadcasts@ == s0.broadcasts@
            &&& s1.broadcast_history@ == s0.broadcast_history@
        },
        Message::BacklogRequest(q) => {
            &&& s1.backlog@ == filter_map(
                s0.backlog@,
                |mc: MessageCollection|
                    !(crate::backlog::pulled_by(
                        s0.routes@,
                        s0.configuration.id@,
                        q.gateway_id@,
                    ))(mc),
                |mc: MessageCollection| mc,
            )
            &&& out1.len() == out0.len() + 1
            &&& out1.take(out0.len() as int) == out0
            &&& out1.last() matches Message::BacklogResponse(resp)
                && resp.message_collections@ == filter_map(
                s0.backlog@,
                crate::backlog::pulled_by(s0.routes@, s0.configuration.id@, q.gateway_id@),
                |mc: MessageCollection| mc,
            )
            &&& s1.configuration == s0.configuration
            &&& s1.peers@ == s0.peers@
            &&& s1.routes@ == s0.routes@
            &&& s1.tickets@ == s0.tickets@
            &&& s1.traces@ == s0.traces@
            &&& s1.broadcasts@ == s0.broadcasts@
            &&& s1.broadcast_history@ == s0.broadcast_history@
        },
        Message::BacklogResponse(br) => {
            &&& s1.backlog@ == s0.backlog@ + filter_map(
                br.message_collections@,
                |mc: MessageCollection| mc.messages@.len() > 0,
                |mc: MessageCollection| mc,
            )
            &&& out1 == out0
            &&& s1.configuration == s0.configuration
            &&& s1.peers@ == s0.peers@
            &&& s1.routes@ == s0.routes@
            &&& s1.tickets@ == s0.tickets@
            &&& s1.traces@ == s0.traces@
            &&& s1.broadcasts@ == s0.broadcasts@
            &&& s1.broadcast_history@ == s0.broadcast_history@
        },
        Message::TraceRequest(t) => {
            &&& s1 == s0
            &&& out1.len() == out0.len() + 1
            &&& out1.take(out0.len() as int) == out0
            &&& out1.last() == Message::TraceResponse(
                TraceResponse { hop_count: t.hop_count, request_id: t.request_id },
            )
        },
        Message::TraceResponse(t) => {
            &&& match find_trace_from(s0.traces@, t.request_id@, 0) {
                None => s1.traces@ == s0.traces@,
                Some(i) => s1.traces@ == s0.traces@.update(
                    i,
                    TraceEntry {
                        request_id: s0.traces@[i].request_id,
                        trace: Trace {
                            events: s0.traces@[i].trace.events,
                            request_id: s0.traces@[i].trace.request_id,
                            destination_id: s0.traces@[i].trace.destination_id,
                            start_time: s0.traces@[i].trace.start_time,
                            stop_time: Some(now),
                        },
                    },
                ),
            }
            &&& out1 == out0
            &&& s1.configuration == s0.configuration
            &&& s1.peers@ == s0.peers@
            &&& s1.routes@ == s0.routes@
            &&& s1.backlog@ == s0.backlog@
            &&& s1.tickets@ == s0.tickets@
            &&& s1.broadcasts@ == s0.broadcasts@
            &&& s1.broadcast_history@ == s0.broadcast_history@
        },
        Message::TraceEvent(e) => {
            &&& match find_trace_from(s0.traces@, e.request_id@, 0) {
                None => s1.traces@ == s0.traces@,
                Some(i) => {
                    &&& s1.traces@.len() == s0.traces@.len()
                    &&& forall|k: int|
                        0 <= k < s0.traces@.len() && k != i ==> s1.traces@[k] == s0.traces@[k]
                    &&& s1.traces@[i].request_id == s0.traces@[i].request_id
                    &&& s1.traces@[i].trace.events@ == s0.traces@[i].trace.events@.push(e)
                    &&& s1.traces@[i].trace.request_id == s0.traces@[i].trace.request_id
                    &&& s1.traces@[i].trace.destination_id == s0.traces@[i].trace.destination_id
                    &&& s1.traces@[i].trace.start_time == s0.traces@[i].trace.start_time
                    &&& s1.traces@[i].trace.stop_time == s0.traces@[i].trace.stop_time
                },
            }
            &&& out1 == out0
            &&& s1.configuration == s0.configuration
            &&& s1.peers@ == s0.peers@
            &&& s1.routes@ == s0.routes@
            &&& s1.backlog@ == s0.backlog@
            &&& s1.tickets@ == s0.tickets@
            &&& s1.broadcasts@ == s0.broadcasts@
            &&& s1.broadcast_history@ == s0.broadcast_history@
        },
        Message::TicketRequest(tq) => {
            &&& out1.len() == out0.len() + 1
            &&& out1.take(out0.len() as int) == out0
            &&& out1.last() matches Message::TicketResponse(tr2) && tr2.ticket_id == tq.ticket_id
                && ticket_request_step(s0, s1, tq, tr2, now)
        },
        Message::TicketResponse(tr) => out1 == out0 && ticket_response_step(s0, s1, tr, now),
        Message::BroadcastRequest(b) => {
            &&& out1 == out0
            &&& (history_contains(s0.broadcast_history@, b.request_id@) ==> s1 == s0)
            &&& s1.configuration == s0.configuration
            &&& s1.peers@ == s0.peers@
            &&& s1.routes@ == s0.routes@
            &&& s1.tickets@ == s0.tickets@
            &&& s1.traces@ == s0.traces@
            &&& s1.broadcasts@ == s0.broadcasts@
            &&& (!history_contains(s0.broadcast_history@, b.request_id@)
                ==> s1.broadcast_history@ == s0.broadcast_history@.push(
                crate::broadcasting::HistoryEntry { request_id: b.request_id, time: now },
            ) && s1.backlog@.len() == s0.backlog@.len() + crate::broadcasting::unique_gateways(
                s0.routes@,
            ).len() + (
            if (crate::broadcasting::spec_broadcast_answer(b.broadcast_message) is Some)
                && (b.origin_id is Some) {
                1int
            } else {
                0int
            }) && s1.backlog@.take(s0.backlog@.len() as int) == s0.backlog@)
        },
        Message::BroadcastResponse(br) => {
            &&& out1 == out0
            &&& match find_broadcast_from(s0.broadcasts@, br.request_id@, 0) {
                None => s1.broadcasts@ == s0.broadcasts@,
                Some(i) => {
                    &&& s1.broadcasts@.len() == s0.broadcasts@.len()
                    &&& forall|k: int|
                        0 <= k < s0.broadcasts@.len() && k != i ==> s1.broadcasts@[k]
                            == s0.broadcasts@[k]
                    &&& s1.broadcasts@[i].request_id == s0.broadcasts@[i].request_id
                    &&& s1.broadcasts@[i].broadcast.request == s0.broadcasts@[i].broadcast.request
                    &&& ({
                        let entry = BroadcastResponseEntry { origin_id: origin, response: br };
                        match find_response_from(
                            s0.broadcasts@[i].broadcast.responses@,
                            origin@,
                            0,
                        ) {
                            None => s1.broadcasts@[i].broadcast.responses@
                                == s0.broadcasts@[i].broadcast.responses@.push(entry),
                            Some(j) => s1.broadcasts@[i].broadcast.responses@
                                == s0.broadcasts@[i].broadcast.responses@.update(j, entry),
                        }
                    })
                },
            }
            &&& s1.configuration == s0.configuration
            &&& s1.peers@ == s0.peers@
            &&& s1.routes@ == s0.routes@
            &&& s1.backlog@ == s0.backlog@
            &&& s1.tickets@ == s0.tickets@
            &&& s1.traces@ == s0.traces@
            &&& s1.broadcast_history@ == s0.broadcast_history@
        },
    }
}

/// What delivering a whole batch does: the messages take effect one
/// after the other in list order, each by `selective_step`, threading the
/// node's state and the reply list through the chain.
pub open spec fn selective_pass(
    s0: Singleton,
    s1: Singleton,
    messages: Seq<Message>,
    origin: String,
    out0: Seq<Message>,
    out1: Seq<Message>,
    now: u64,
) -> bool
    decreases messages.len(),
{
    if messages.len() == 0 {
        s1 == s0 && out1 == out0
    } else {
        exists|smid: Singleton, omid: Seq<Message>|
            #[trigger] selective_step(s0, smid, messages[0], origin, out0, omid, now)
                && selective_pass(smid, s1, messages.drop_first(), origin, omid, out1, now)
    }
}

/// One more delivered message extends the chain at its end.
pub proof fn lemma_selective_pass_snoc(
    s0: Singleton,
    smid: Singleton,
    s1: Singleton,
    pre: Seq<Message>,
    m: Message,
    origin: String,
    out0: Seq<Message>,
    omid: Seq<Message>,
    out1: Seq<Message>,
    now: u64,
)
    requires
        selective_pass(s0, smid, pre, origin, out0, omid, now),
        selective_step(smid, s1, m, origin, omid, out1, now),
    ensures
        selective_pass(s0, s1, pre.push(m), origin, out0, out1, now),
    decreases pre.len(),
{
    if pre.len() == 0 {
        assert(pre.push(m)[0] == m);
        assert(pre.push(m).drop_first() =~= Seq::<Message>::empty());
        assert(selective_step(s0, s1, pre.push(m)[0], origin, out0, out1, now));
        assert(selective_pass(s1, s1, pre.push(m).drop_first(), origin, out1, out1, now));
    } else {
        let (sa, oa): (Singleton, Seq<Message>) = choose|sa: Singleton, oa: Seq<Message>|
            #[trigger] selective_step(s0, sa, pre[0], origin, out0, oa, now)
                && selective_pass(sa, smid, pre.drop_first(), origin, oa, omid, now);
        lemma_selective_pass_snoc(
            sa,
            smid,
            s1,
            pre.drop_first(),
            m,
            origin,
            oa,
            omid,
            out1,
            now,
        );
        assert(pre.push(m)[0] == pre[0]);
        assert(pre.push(m).drop_first() =~= pre.drop_first().push(m));
        assert(selective_step(s0, sa, pre.push(m)[0], origin, out0, oa, now));
    }
}

/// Deliver one message at its destination: answer pings, learn and
/// re-advertise routes, honor recalls and backlog pulls, stitch trace
/// reports, dispatch and store tickets, and run the broadcast machine.
/// Replies accumulate on `outbound`.
pub fn selective_decode_message(
    singleton: &mut Singleton,
    message: Message,
    origin_id: &String,
    outbound: &mut MessageCollection,
    now_millis: u64,
)
    ensures
        selective_step(
            *old(singleton),
            *final(singleton),
            message,
            *origin_id,
            old(outbound).messages@,
            final(outbound).messages@,
            now_millis,
        ),
        final(outbound).origin_id == old(outbound).origin_id,
        final(outbound).destination_id == old(outbound).destination_id,
{
    match message {
        Message::Ping => {
            outbound.messages.push(Message::Pong);
        },
        Message::Pong => (),
        Message::RouteAdvertisement(adv) => {
            adv.process(singleton, origin_id);
            let snapshot = crate::routing::duplicate_routes(&singleton.routes);
            let reply = RouteAdvertisement::from_routes(snapshot);
            outbound.messages.push(Message::RouteAdvertisement(reply));
            proof {
                assert(final(outbound).messages@.take(old(outbound).messages@.len() as int) =~= old(
                    outbound,
                ).messages@);
            }
        },
        Message::RouteRecall(rr) => {
            remove_routes_by_gateway_and_destination(origin_id, &rr.destination_id, singleton);
        },
        Message::BacklogRequest(q) => {
            let resp = request_backlog(singleton, q);
            outbound.messages.push(Message::BacklogResponse(resp));
            proof {
                assert(final(outbound).messages@.take(old(outbound).messages@.len() as int) =~= old(
                    outbound,
                ).messages@);
            }
        },
        Message::BacklogResponse(br) => {
            let ghost contained = br.message_collections@;
            let ghost keep = |mc: MessageCollection| mc.messages@.len() > 0;
            let ghost fid = |mc: MessageCollection| mc;
            let ghost backlog0 = singleton.backlog@;
            let mut rest = br.message_collections;
            let ghost mut seen: int = 0;
            while rest.len() > 0
                invariant
                    0 <= seen <= contained.len(),
                    rest@ == contained.skip(seen),
                    keep == (|mc: MessageCollection| mc.messages@.len() > 0),
                    fid == (|mc: MessageCollection| mc),
                    backlog0 == old(singleton).backlog@,
                    singleton.backlog@ == backlog0 + filter_map(contained.take(seen), keep, fid),
                    singleton.configuration == old(singleton).configuration,
                    singleton.peers@ == old(singleton).peers@,
                    singleton.routes@ == old(singleton).routes@,
                    singleton.tickets@ == old(singleton).tickets@,
                    singleton.traces@ == old(singleton).traces@,
                    singleton.broadcasts@ == old(singleton).broadcasts@,
                    singleton.broadcast_history@ == old(singleton).broadcast_history@,
                decreases rest.len(),
            {
                proof {
                    crate::seq_util::lemma_filter_map_take_step(contained, keep, fid, seen);
                    assert(rest@[0] == contained[seen]);
                }
                let mc = rest.remove(0);
                push_message_collection_to_backlog(mc, singleton);
                proof {
                    seen = seen + 1;
                    assert(rest@ =~= contained.skip(seen));
                    assert(singleton.backlog@ =~= backlog0 + filter_map(
                        contained.take(seen),
                        keep,
                        fid,
                    ));
                }
            }
            proof {
                assert(contained.take(seen) =~= contained);
            }
        },
        Message::TraceRequest(t) => {
            let reply = TraceResponse::from(t);
            outbound.messages.push(Message::TraceResponse(reply));
            proof {
                assert(final(outbound).messages@.take(old(outbound).messages@.len() as int) =~= old(
                    outbound,
                ).messages@);
            }
        },
        Message::TraceResponse(t) => {
            crate::tracing::close_trace(&t.request_id, singleton, now_millis);
        },
        Message::TraceEvent(e) => {
            crate::tracing::record_trace_event(e, singleton);
        },
        Message::TicketRequest(tq) => {
            let ghost tq0 = tq;
            let resp = process_ticket_request(tq, singleton, now_millis);
            outbound.messages.push(Message::TicketResponse(resp));
            proof {
                assert(final(outbound).messages@.take(old(outbound).messages@.len() as int) =~= old(
                    outbound,
                ).messages@);
            }
        },
        Message::TicketResponse(tr) => {
            process_ticket_response(tr, singleton, now_millis);
        },
        Message::BroadcastRequest(b) => {
            process_broadcast_request(singleton, b, now_millis);
        },
        Message::BroadcastResponse(br) => {
            process_broadcast_response(singleton, br, origin_id.clone());
        },
    }
}

/// Deliver a whole locally-addressed batch, message by message in list
/// order, accumulating replies on `outbound`.  The reply batch keeps its
/// addressing; its earlier messages stay in place.  When the table
/// invariant held and the batch does not claim this node's own identity
/// as its origin, the invariant still holds afterwards.
pub fn decode_selective_messages(
    singleton: &mut Singleton,
    inbound: MessageCollection,
    outbound: &mut MessageCollection,
    now_millis: u64,
)
    ensures
        final(outbound).origin_id == old(outbound).origin_id,
        final(outbound).destination_id == old(outbound).destination_id,
        final(outbound).messages@.len() >= old(outbound).messages@.len(),
        final(outbound).messages@.take(old(outbound).messages@.len() as int) == old(
            outbound,
        ).messages@,
        final(singleton).configuration == old(singleton).configuration,
        selective_pass(
            *old(singleton),
            *final(singleton),
            inbound.messages@,
            inbound.origin_id,
            old(outbound).messages@,
            final(outbound).messages@,
            now_millis,
        ),
        route_table_wf(old(singleton).routes@, old(singleton).configuration.id@)
            && inbound.origin_id@ != old(singleton).configuration.id@ ==> route_table_wf(
            final(singleton).routes@,
            final(singleton).configuration.id@,
        ),
{
    let MessageCollection { mut messages, origin_id, destination_id: _ } = inbound;
    let ghost msgs0 = inbound.messages@;
    let ghost out0 = outbound.messages@;
    let ghost mut seen: int = 0;
    while messages.len() > 0
        invariant
            0 <= seen <= msgs0.len(),
            messages@ == msgs0.skip(seen),
            outbound.origin_id == old(outbound).origin_id,
            outbound.destination_id == old(outbound).destination_id,
            outbound.messages@.len() >= out0.len(),
            outbound.messages@.take(out0.len() as int) == out0,
            out0 == old(outbound).messages@,
            singleton.configuration == old(singleton).configuration,
            origin_id == inbound.origin_id,
            msgs0 == inbound.messages@,
            selective_pass(
                *old(singleton),
                *singleton,
                msgs0.take(seen),
                origin_id,
                out0,
                outbound.messages@,
                now_millis,
            ),
            route_table_wf(old(singleton).routes@, old(singleton).configuration.id@)
                && inbound.origin_id@ != old(singleton).configuration.id@ ==> route_table_wf(
                singleton.routes@,
                singleton.configuration.id@,
            ),
        decreases messages.len(),
    {
        proof {
            assert(messages@[0] == msgs0[seen]);
        }
        let m = messages.remove(0);
        let ghost m0 = m;
        let ghost s_before = *singleton;
        let ghost routes_before = singleton.routes@;
        let ghost out_before = outbound.messages@;
        selective_decode_message(singleton, m, &origin_id, outbound, now_millis);
        proof {
            assert(outbound.messages@.take(out0.len() as int) =~= out0);
            lemma_selective_pass_snoc(
                *old(singleton),
                s_before,
                *singleton,
                msgs0.take(seen),
                m0,
                origin_id,
                out0,
                out_before,
                outbound.messages@,
                now_millis,
            );
            assert(msgs0.take(seen).push(m0) =~= msgs0.take(seen + 1));
            seen = seen + 1;
            assert(messages@ =~= msgs0.skip(seen));
            if route_table_wf(routes_before, singleton.configuration.id@) && inbound.origin_id@
                != singleton.configuration.id@ {
                match m0 {
                    Message::RouteAdvertisement(adv) => {
                        crate::routing::lemma_apply_wf(
                            routes_before,
                            adv.routes@,
                            origin_id,
                            singleton.configuration.id@,
                        );
                    },
                    Message::RouteRecall(rr) => {
                        crate::routing::lemma_filtered_table_wf(
                            routes_before,
                            singleton.routes@,
                            recall_kept(origin_id@, rr.destination_id@),
                            |r: crate::routing::Route| r,
                            singleton.configuration.id@,
                        );
                    },
                    _ => {},
                }
            }
        }
    }
    proof {
        assert(msgs0.take(seen) =~= msgs0);
    }
}

/// Process an inbound batch: run the transit-time pass, then either
/// deliver the batch here (when resolution points home), or hand back a
/// forwarding order toward the resolved gateway's endpoint, or queue the
/// batch — issuing route recalls first when no route is known at all.
/// The returned reply batch is addressed back to the sender; an empty one
/// means nothing to say.
pub fn process_message_collection(
    inbound: MessageCollection,
    singleton: &mut Singleton,
    now_millis: u64,
) -> (r: (MessageCollection, Option<ForwardOrder>))
    ensures
        r.0.origin_id == old(singleton).configuration.id,
        r.0.destination_id == Some(inbound.origin_id),
        final(singleton).configuration == old(singleton).configuration,
        ({
            let eff = effective_destination(inbound, old(singleton).configuration.id@);
            match spec_resolve(old(singleton).routes@, eff) {
                Some(rt) => {
                    &&& (rt.gateway_id@ == old(singleton).configuration.id@ ==> r.1 is None
                        && exists|mid: Singleton|
                        #[trigger] promiscuous_pass(*old(singleton), mid, inbound, now_millis)
                            && selective_pass(
                            mid,
                            *final(singleton),
                            promiscuous_all(inbound.messages@),
                            inbound.origin_id,
                            Seq::<Message>::empty(),
                            r.0.messages@,
                            now_millis,
                        ))
                    &&& (rt.gateway_id@ != old(singleton).configuration.id@ ==> match
                        first_url_from(old(singleton).peers@, rt.gateway_id@, 0) {
                        Some(u) => {
                            &&& r.1 matches Some(order) && order.url == u
                                && is_promiscuous_batch(order.message_collection, inbound)
                            &&& r.0.messages@ == Seq::<Message>::empty()
                            &&& promiscuous_pass(
                                *old(singleton),
                                *final(singleton),
                                inbound,
                                now_millis,
                            )
                        },
                        None => {
                            &&& r.1 is None
                            &&& r.0.messages@ == Seq::<Message>::empty()
                            &&& final(singleton).peers@ == old(singleton).peers@
                            &&& final(singleton).routes@ == old(singleton).routes@
                            &&& final(singleton).tickets@ == old(singleton).tickets@
                            &&& final(singleton).traces@ == old(singleton).traces@
                            &&& final(singleton).broadcasts@ == old(singleton).broadcasts@
                            &&& final(singleton).broadcast_history@ == old(
                                singleton,
                            ).broadcast_history@
                            &&& exists|mid: Singleton|
                                #[trigger] promiscuous_pass(
                                    *old(singleton),
                                    mid,
                                    inbound,
                                    now_millis,
                                ) && ({
                                    let b1 = final(singleton).backlog@;
                                    &&& (inbound.messages@.len() == 0 ==> b1 == mid.backlog@)
                                    &&& (inbound.messages@.len() > 0 ==> b1.len()
                                        == mid.backlog@.len() + 1 && b1.drop_last()
                                        == mid.backlog@ && is_promiscuous_batch(
                                        b1.last(),
                                        inbound,
                                    ))
                                })
                        },
                    })
                },
                None => {
                    &&& r.1 is None
                    &&& r.0.messages@ == Seq::<Message>::empty()
                    &&& final(singleton).peers@ == old(singleton).peers@
                    &&& final(singleton).routes@ == old(singleton).routes@
                    &&& final(singleton).tickets@ == old(singleton).tickets@
                    &&& final(singleton).traces@ == old(singleton).traces@
                    &&& final(singleton).broadcasts@ == old(singleton).broadcasts@
                    &&& final(singleton).broadcast_history@ == old(singleton).broadcast_history@
                    &&& ({
                        let targets = match inbound.destination_id {
                            Some(d) => filter_map(
                                old(singleton).peers@,
                                recall_target(d@),
                                peer_learned_id(),
                            ),
                            None => Seq::<Option<String>>::empty(),
                        };
                        let extra: int = if inbound.messages@.len() > 0 {
                            1int
                        } else {
                            0int
                        };
                        exists|mid: Singleton|
                            #[trigger] promiscuous_pass(
                                *old(singleton),
                                mid,
                                inbound,
                                now_millis,
                            ) && ({
                                &&& final(singleton).backlog@.len() == mid.backlog@.len()
                                    + targets.len() + extra
                                &&& final(singleton).backlog@.take(mid.backlog@.len() as int)
                                    == mid.backlog@
                                &&& (forall|k: int|
                                    0 <= k < targets.len() ==> (inbound.destination_id
                                        matches Some(d) && is_recall(
                                        #[trigger] final(singleton).backlog@[mid.backlog@.len()
                                            + k],
                                        old(singleton).configuration.id,
                                        targets[k],
                                        d@,
                                    )))
                                &&& (inbound.messages@.len() > 0 ==> is_promiscuous_batch(
                                    final(singleton).backlog@.last(),
                                    inbound,
                                ))
                            })
                    })
                },
            }
        }),
        route_table_wf(old(singleton).routes@, old(singleton).configuration.id@)
            && inbound.origin_id@ != old(singleton).configuration.id@ ==> route_table_wf(
            final(singleton).routes@,
            final(singleton).configuration.id@,
        ),
{
    let mut outbound = MessageCollection {
        messages: Vec::new(),
        origin_id: singleton.configuration.id.clone(),
        destination_id: Some(inbound.origin_id.clone()),
    };
    let mut inbound = inbound;
    let ghost inbound0 = inbound;
    decode_promiscuous_messages(singleton, &mut inbound, now_millis);
    let ghost mid = *singleton;
    proof {
        assert(outbound.messages@ =~= Seq::<Message>::empty());
        assert(promiscuous_pass(*old(singleton), mid, inbound0, now_millis));
        assert forall|k: int| 0 <= k < inbound.messages@.len() implies inbound.messages@[k]
            == promiscuous_all(inbound0.messages@)[k] by {
            assert(inbound.messages@[k] == promiscuous_one(inbound0.messages@[k]));
        }
        assert(inbound.messages@ =~= promiscuous_all(inbound0.messages@));
        assert(is_promiscuous_batch(inbound, inbound0));
    }

    let effective = match &inbound.destination_id {
        Some(d) => d.clone(),
        None => singleton.configuration.id.clone(),
    };
    proof {
        assert(effective@ == effective_destination(inbound0, old(singleton).configuration.id@));
    }
    let gateway_id = resolve_gateway_id(&effective, singleton);
    match gateway_id {
        Some(g) => {
            if g == singleton.configuration.id {
                decode_selective_messages(singleton, inbound, &mut outbound, now_millis);
                proof {
                    assert(selective_pass(
                        mid,
                        *singleton,
                        promiscuous_all(inbound0.messages@),
                        inbound0.origin_id,
                        Seq::<Message>::empty(),
                        outbound.messages@,
                        now_millis,
                    ));
                }
                (outbound, None)
            } else {
                let url = lookup_peer_url(&g, singleton);
                match url {
                    Some(url) => {
                        (outbound, Some(ForwardOrder { url, message_collection: inbound }))
                    },
                    None => {
                        push_message_collection_to_backlog(inbound, singleton);
                        proof {
                            if inbound.messages@.len() == 0 {
                                assert(inbound0.messages@.len() == 0);
                                assert(singleton.backlog@ == mid.backlog@);
                            } else {
                                assert(singleton.backlog@.drop_last() =~= mid.backlog@);
                            }
                        }
                        (outbound, None)
                    },
                }
            }
        },
        None => {
            let explicit = match &inbound.destination_id {
                Some(d) => Some(d.clone()),
                None => None,
            };
            let ghost targets = match inbound0.destination_id {
                Some(d) => filter_map(
                    old(singleton).peers@,
                    recall_target(d@),
                    peer_learned_id(),
                ),
                None => Seq::<Option<String>>::empty(),
            };
            match explicit {
                Some(d) => {
                    recall_routes_by_destination_id(singleton, &d);
                    proof {
                        assert(inbound0.destination_id matches Some(x) && x@ == d@);
                        assert(recall_target(d@) == recall_target(
                            inbound0.destination_id.unwrap()@,
                        ));
                    }
                },
                None => (),
            }
            let ghost recalled = *singleton;
            proof {
                assert(recalled.backlog@.len() == mid.backlog@.len() + targets.len());
                assert(recalled.backlog@.take(mid.backlog@.len() as int) == mid.backlog@);
            }
            push_message_collection_to_backlog(inbound, singleton);
            proof {
                if inbound.messages@.len() == 0 {
                    assert(inbound0.messages@.len() == 0);
                    assert(singleton.backlog@ == recalled.backlog@);
                } else {
                    assert(singleton.backlog@ == recalled.backlog@.push(inbound));
                    assert(singleton.backlog@.take(mid.backlog@.len() as int)
                        =~= recalled.backlog@.take(mid.backlog@.len() as int));
                    assert forall|k: int| 0 <= k < targets.len() implies #[trigger] singleton.backlog@[
                        mid.backlog@.len() + k] == recalled.backlog@[mid.backlog@.len() + k] by {}
                }
            }
            (outbound, None)
        },
    }
}

/// Report the outcome of a forwarding order.  A reply is queued for later
/// processing; a transport failure drops every route through the dead
/// endpoint (the self-route survives) and re-queues the unsent batch.
pub fn complete_forward(
    order: ForwardOrder,
    reply: Option<MessageCollection>,
    singleton: &mut Singleton,
)
    ensures
        reply matches Some(mc) ==> ({
            &&& final(singleton).routes@ == old(singleton).routes@
            &&& (mc.messages@.len() == 0 ==> final(singleton).backlog@ == old(singleton).backlog@)
            &&& (mc.messages@.len() > 0 ==> final(singleton).backlog@ == old(
                singleton,
            ).backlog@.push(mc))
        }),
        reply is None ==> ({
            &&& final(singleton).routes@ == filter_map(
                old(singleton).routes@,
                crate::routing::url_removal_kept(old(singleton).peers@, order.url@),
                |r: crate::routing::Route| r,
            )
            &&& (order.message_collection.messages@.len() == 0 ==> final(singleton).backlog@ == old(
                singleton,
            ).backlog@)
            &&& (order.message_collection.messages@.len() > 0 ==> final(singleton).backlog@ == old(
                singleton,
            ).backlog@.push(order.message_collection))
        }),
        final(singleton).configuration == old(singleton).configuration,
        final(singleton).peers@ == old(singleton).peers@,
        final(singleton).tickets@ == old(singleton).tickets@,
        final(singleton).traces@ == old(singleton).traces@,
        final(singleton).broadcasts@ == old(singleton).broadcasts@,
        final(singleton).broadcast_history@ == old(singleton).broadcast_history@,
        route_table_wf(old(singleton).routes@, old(singleton).configuration.id@)
            ==> route_table_wf(final(singleton).routes@, final(singleton).configuration.id@),
{
    match reply {
        Some(mc) => {
            push_message_collection_to_backlog(mc, singleton);
        },
        None => {
            crate::routing::remove_routes_by_url(&order.url, singleton);
            push_message_collection_to_backlog(order.message_collection, singleton);
        },
    }
}

/// The peers that can be dialed.
pub open spec fn dialable_peer() -> spec_fn(Peer) -> bool {
    |p: Peer| p.url is Some
}

/// Identity on peers.
pub open spec fn peer_fid() -> spec_fn(Peer) -> Peer {
    |p: Peer| p
}

/// Build one advertisement order per dialable peer: a batch carrying the
/// full route table, addressed to the peer's learned id, bound for its
/// endpoint.  The caller sends each order, records the replying origin
/// through `record_peer_origin`, feeds the reply to
/// `process_message_collection` — and on failure drops the dead
/// endpoint's routes through `remove_routes_by_url`.
pub fn advertise(singleton: &Singleton) -> (r: Vec<ForwardOrder>)
    ensures
        ({
            let ps = filter_map(singleton.peers@, dialable_peer(), peer_fid());
            &&& r@.len() == ps.len()
            &&& forall|k: int|
                0 <= k < ps.len() ==> ((#[trigger] ps[k]).url matches Some(u) && r@[k].url == u && ({
                    let mc = r@[k].message_collection;
                    &&& mc.origin_id == singleton.configuration.id
                    &&& mc.destination_id == ps[k].id
                    &&& mc.messages@.len() == 1
                    &&& mc.messages@[0] matches Message::RouteAdvertisement(a) && a.routes@
                        == singleton.routes@
                }))
        }),
{
    let ghost keep = dialable_peer();
    let ghost fid = peer_fid();
    let ghost peers0 = singleton.peers@;
    let mut out: Vec<ForwardOrder> = Vec::new();
    let mut i: usize = 0;
    while i < singleton.peers.len()
        invariant
            0 <= i <= singleton.peers.len(),
            keep == dialable_peer(),
            fid == peer_fid(),
            peers0 == singleton.peers@,
            out@.len() == filter_map(peers0.take(i as int), keep, fid).len(),
            forall|k: int|
                0 <= k < out@.len() ==> ((#[trigger] filter_map(
                    peers0.take(i as int),
                    keep,
                    fid,
                )[k]).url matches Some(u) && out@[k].url == u && ({
                    let mc = out@[k].message_collection;
                    &&& mc.origin_id == singleton.configuration.id
                    &&& mc.destination_id == filter_map(peers0.take(i as int), keep, fid)[k].id
                    &&& mc.messages@.len() == 1
                    &&& mc.messages@[0] matches Message::RouteAdvertisement(a) && a.routes@
                        == singleton.routes@
                })),
        decreases singleton.peers.len() - i,
    {
        proof {
            crate::seq_util::lemma_filter_map_take_step(peers0, keep, fid, i as int);
        }
        let p = &singleton.peers[i];
        match &p.url {
            Some(u) => {
                let snapshot = crate::routing::duplicate_routes(&singleton.routes);
                let advertisement = RouteAdvertisement::from_routes(snapshot);
                let mc = MessageCollection {
                    messages: vec![Message::RouteAdvertisement(advertisement)],
                    origin_id: singleton.configuration.id.clone(),
                    destination_id: match &p.id {
                        Some(s) => Some(s.clone()),
                        None => None,
                    },
                };
                out.push(ForwardOrder { url: u.clone(), message_collection: mc });
            },
            None => (),
        }
        i = i + 1;
    }
    proof {
        assert(peers0.take(peers0.len() as int) =~= peers0);
    }
    out
}

/// The peers a recall for `dest` is sent to: those known by an id other
/// than `dest` itself.
pub open spec fn recall_target(dest: Seq<char>) -> spec_fn(Peer) -> bool {
    |p: Peer|
        match p.id {
            Some(pid) => pid@ != dest,
            None => false,
        }
}

/// The learned id of a peer row.
pub open spec fn peer_learned_id() -> spec_fn(Peer) -> Option<String> {
    |p: Peer| p.id
}

/// True when `mc` asks `target` to drop its routes toward `dest`: a
/// single `RouteRecall` from `local`.
pub open spec fn is_recall(
    mc: MessageCollection,
    local: String,
    target: Option<String>,
    dest: Seq<char>,
) -> bool {
    &&& mc.origin_id == local
    &&& mc.destination_id == target
    &&& mc.messages@.len() == 1
    &&& mc.messages@[0] matches Message::RouteRecall(rr) && rr.destination_id@ == dest
}

/// Ask every other known peer to drop its routes toward `destination_id`:
/// one recall batch per peer is queued.
pub fn recall_routes_by_destination_id(singleton: &mut Singleton, destination_id: &String)
    ensures
        ({
            let targets = filter_map(
                old(singleton).peers@,
                recall_target(destination_id@),
                peer_learned_id(),
            );
            &&& final(singleton).backlog@.len() == old(singleton).backlog@.len() + targets.len()
            &&& final(singleton).backlog@.take(old(singleton).backlog@.len() as int) == old(
                singleton,
            ).backlog@
            &&& forall|k: int|
                0 <= k < targets.len() ==> is_recall(
                    #[trigger] final(singleton).backlog@[old(singleton).backlog@.len() + k],
                    old(singleton).configuration.id,
                    targets[k],
                    destination_id@,
                )
        }),
        final(singleton).configuration == old(singleton).configuration,
        final(singleton).peers@ == old(singleton).peers@,
        final(singleton).routes@ == old(singleton).routes@,
        final(singleton).tickets@ == old(singleton).tickets@,
        final(singleton).traces@ == old(singleton).traces@,
        final(singleton).broadcasts@ == old(singleton).broadcasts@,
        final(singleton).broadcast_history@ == old(singleton).broadcast_history@,
{
    let ghost keep = recall_target(destination_id@);
    let ghost f = peer_learned_id();
    let ghost peers0 = singleton.peers@;
    let ghost backlog0 = singleton.backlog@;
    let mut i: usize = 0;
    while i < singleton.peers.len()
        invariant
            0 <= i <= singleton.peers.len(),
            keep == recall_target(destination_id@),
            f == peer_learned_id(),
            peers0 == singleton.peers@,
            backlog0 == old(singleton).backlog@,
            singleton.configuration == old(singleton).configuration,
            singleton.peers@ == old(singleton).peers@,
            singleton.routes@ == old(singleton).routes@,
            singleton.tickets@ == old(singleton).tickets@,
            singleton.traces@ == old(singleton).traces@,
            singleton.broadcasts@ == old(singleton).broadcasts@,
            singleton.broadcast_history@ == old(singleton).broadcast_history@,
            singleton.backlog@.len() == backlog0.len() + filter_map(
                peers0.take(i as int),
                keep,
                f,
            ).len(),
            singleton.backlog@.take(backlog0.len() as int) == backlog0,
            forall|k: int|
                0 <= k < filter_map(peers0.take(i as int), keep, f).len() ==> is_recall(
                    #[trigger] singleton.backlog@[backlog0.len() + k],
                    singleton.configuration.id,
                    filter_map(peers0.take(i as int), keep, f)[k],
                    destination_id@,
                ),
        decreases singleton.peers.len() - i,
    {
        proof {
            crate::seq_util::lemma_filter_map_take_step(peers0, keep, f, i as int);
        }
        let p = &singleton.peers[i];
        let is_target = match &p.id {
            Some(pid) => !(*pid == *destination_id),
            None => false,
        };
        if is_target {
            let target = match &p.id {
                Some(pid) => Some(pid.clone()),
                None => None,
            };
            let mc = MessageCollection {
                messages: vec![
                    Message::RouteRecall(
                        crate::routing::RouteRecall {
                            destination_id: destination_id.clone(),
                        },
                    ),
                ],
                origin_id: singleton.configuration.id.clone(),
                destination_id: target,
            };
            singleton.backlog.push(mc);
            proof {
                assert(singleton.backlog@.take(backlog0.len() as int) =~= backlog0);
            }
        }
        i = i + 1;
    }
    proof {
        assert(peers0.take(peers0.len() as int) =~= peers0);
    }
}

} // verus!
