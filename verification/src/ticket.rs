use vstd::prelude::*;

use crate::broadcasting::Broadcast;
use crate::peering::PeerQuery;
use crate::routing::RouteQuery;
use crate::seq_util::opt_str_eqv;
use crate::state::Singleton;
use crate::tracing::Trace;
use crate::tracing::TraceEntry;

verus! {

/// The payload of an asynchronous operator job: an echo test, a trace or
/// broadcast control step, or a table query.
pub enum TicketMessage {
    Test,
    BeginTrace(Trace),
    DrainTrace(Trace),
    PollTrace(Trace),
    RouteQuery(RouteQuery),
    PeerQuery(PeerQuery),
    TicketQuery(TicketQuery),
    BeginBroadcast(Broadcast),
    DrainBroadcast(Broadcast),
    PollBroadcast(Broadcast),
}

/// A stored job: its request, the answer once it arrived, where it was
/// sent, and its wall-time bounds in milliseconds.
pub struct Ticket {
    pub request: TicketRequest,
    pub response: Option<TicketMessage>,
    pub destination_id: Option<String>,
    pub start_time: u64,
    pub stop_time: Option<u64>,
}

/// An operator query for the ticket table; `None` asks, `Some` answers.
#[derive(Default)]
pub struct TicketQuery {
    pub tickets: Option<Vec<Ticket>>,
}

/// A job on the wire, keyed by `ticket_id`.
pub struct TicketRequest {
    pub ticket_message: TicketMessage,
    pub ticket_id: String,
}

/// A job's answer on the wire, keyed by `ticket_id`.
pub struct TicketResponse {
    pub ticket_message: TicketMessage,
    pub ticket_id: String,
}

/// A stored ticket with its key.
pub struct TicketEntry {
    pub ticket_id: String,
    pub ticket: Ticket,
}

/// Deep equality of ticket payloads, strings compared by contents.
pub open spec fn ticket_message_eqv(a: TicketMessage, b: TicketMessage) -> bool
    decreases a,
{
    match (a, b) {
        (TicketMessage::Test, TicketMessage::Test) => true,
        (TicketMessage::BeginTrace(x), TicketMessage::BeginTrace(y)) => x.eqv(y),
        (TicketMessage::DrainTrace(x), TicketMessage::DrainTrace(y)) => x.eqv(y),
        (TicketMessage::PollTrace(x), TicketMessage::PollTrace(y)) => x.eqv(y),
        (TicketMessage::RouteQuery(x), TicketMessage::RouteQuery(y)) => x.eqv(y),
        (TicketMessage::PeerQuery(x), TicketMessage::PeerQuery(y)) => x.eqv(y),
        (TicketMessage::TicketQuery(x), TicketMessage::TicketQuery(y)) => match (
            x.tickets,
            y.tickets,
        ) {
            (None, None) => true,
            (Some(v), Some(w)) => ticket_seq_eqv(v@, w@),
            _ => false,
        },
        (TicketMessage::BeginBroadcast(x), TicketMessage::BeginBroadcast(y)) => x.eqv(y),
        (TicketMessage::DrainBroadcast(x), TicketMessage::DrainBroadcast(y)) => x.eqv(y),
        (TicketMessage::PollBroadcast(x), TicketMessage::PollBroadcast(y)) => x.eqv(y),
        _ => false,
    }
}

/// Deep equality of ticket sequences, elementwise.
pub open spec fn ticket_seq_eqv(a: Seq<Ticket>, b: Seq<Ticket>) -> bool
    decreases a,
{
    if a.len() != b.len() {
        false
    } else if a.len() == 0 {
        true
    } else {
        ticket_eqv(a[0], b[0]) && ticket_seq_eqv(a.drop_first(), b.drop_first())
    }
}

/// Deep equality of stored tickets, strings compared by contents.
pub open spec fn ticket_eqv(a: Ticket, b: Ticket) -> bool
    decreases a,
{
    &&& ticket_message_eqv(a.request.ticket_message, b.request.ticket_message)
    &&& a.request.ticket_id@ == b.request.ticket_id@
    &&& match (a.response, b.response) {
        (None, None) => true,
        (Some(x), Some(y)) => ticket_message_eqv(x, y),
        _ => false,
    }
    &&& opt_str_eqv(a.destination_id, b.destination_id)
    &&& a.start_time == b.start_time
    &&& a.stop_time == b.stop_time
}

/// Elementwise equality at every index gives equivalent sequences.
pub proof fn lemma_ticket_seq_eqv_build(a: Seq<Ticket>, b: Seq<Ticket>)
    requires
        a.len() == b.len(),
        forall|i: int| 0 <= i < a.len() ==> ticket_eqv(#[trigger] a[i], b[i]),
    ensures
        ticket_seq_eqv(a, b),
    decreases a.len(),
{
    if a.len() > 0 {
        assert forall|i: int| 0 <= i < a.drop_first().len() implies ticket_eqv(
            #[trigger] a.drop_first()[i],
            b.drop_first()[i],
        ) by {
            assert(a.drop_first()[i] == a[i + 1]);
            assert(b.drop_first()[i] == b[i + 1]);
        }
        lemma_ticket_seq_eqv_build(a.drop_first(), b.drop_first());
    }
}

/// Structural size of a ticket payload, the measure for the recursion
/// through queries that carry stored tickets.
pub open spec fn ticket_message_size(m: TicketMessage) -> nat
    decreases m,
{
    match m {
        TicketMessage::TicketQuery(q) => match q.tickets {
            Some(v) => 2 + ticket_seq_size(v@),
            None => 1,
        },
        _ => 1,
    }
}

/// Structural size of a stored ticket sequence.
pub open spec fn ticket_seq_size(s: Seq<Ticket>) -> nat
    decreases s,
{
    if s.len() == 0 {
        0
    } else {
        1 + ticket_size(s[0]) + ticket_seq_size(s.drop_first())
    }
}

/// Structural size of a stored ticket.
pub open spec fn ticket_size(t: Ticket) -> nat
    decreases t,
{
    2 + ticket_message_size(t.request.ticket_message) + match t.response {
        Some(m) => ticket_message_size(m),
        None => 0,
    }
}

/// Every element of a ticket sequence weighs no more than the sequence.
pub proof fn lemma_ticket_seq_size_element(s: Seq<Ticket>, i: int)
    requires
        0 <= i < s.len(),
    ensures
        ticket_size(s[i]) <= ticket_seq_size(s),
    decreases s.len(),
{
    if i > 0 {
        lemma_ticket_seq_size_element(s.drop_first(), i - 1);
        assert(s.drop_first()[i - 1] == s[i]);
    }
}

impl Clone for TicketMessage {
    fn clone(&self) -> (r: Self)
        ensures
            ticket_message_eqv(*self, r),
        decreases ticket_message_size(*self),
    {
        match self {
            TicketMessage::Test => TicketMessage::Test,
            TicketMessage::BeginTrace(t) => TicketMessage::BeginTrace(t.clone()),
            TicketMessage::DrainTrace(t) => TicketMessage::DrainTrace(t.clone()),
            TicketMessage::PollTrace(t) => TicketMessage::PollTrace(t.clone()),
            TicketMessage::RouteQuery(q) => TicketMessage::RouteQuery(q.clone()),
            TicketMessage::PeerQuery(q) => TicketMessage::PeerQuery(q.clone()),
            TicketMessage::TicketQuery(q) => {
                let tickets = match &q.tickets {
                    Some(v) => {
                        let mut out: Vec<Ticket> = Vec::new();
                        let mut i: usize = 0;
                        while i < v.len()
                            invariant
                                0 <= i <= v.len(),
                                out@.len() == i,
                                forall|k: int|
                                    0 <= k < i ==> ticket_eqv(#[trigger] v@[k], out@[k]),
                                ticket_message_size(*self) == 2 + ticket_seq_size(v@),
                            decreases v.len() - i,
                        {
                            proof {
                                lemma_ticket_seq_size_element(v@, i as int);
                            }
                            let t = v[i].clone();
                            out.push(t);
                            i = i + 1;
                        }
                        proof {
                            lemma_ticket_seq_eqv_build(v@, out@);
                        }
                        Some(out)
                    },
                    None => None,
                };
                TicketMessage::TicketQuery(TicketQuery { tickets })
            },
            TicketMessage::BeginBroadcast(b) => TicketMessage::BeginBroadcast(b.clone()),
            TicketMessage::DrainBroadcast(b) => TicketMessage::DrainBroadcast(b.clone()),
            TicketMessage::PollBroadcast(b) => TicketMessage::PollBroadcast(b.clone()),
        }
    }
}

impl Clone for Ticket {
    fn clone(&self) -> (r: Self)
        ensures
            ticket_eqv(*self, r),
        decreases ticket_size(*self),
    {
        Ticket {
            request: TicketRequest {
                ticket_message: self.request.ticket_message.clone(),
                ticket_id: self.request.ticket_id.clone(),
            },
            response: match &self.response {
                Some(m) => Some(m.clone()),
                None => None,
            },
            destination_id: match &self.destination_id {
                Some(s) => Some(s.clone()),
                None => None,
            },
            start_time: self.start_time,
            stop_time: self.stop_time,
        }
    }
}

/// The first stored ticket under `id`, scanning from `i`.
pub open spec fn find_ticket_from(s: Seq<TicketEntry>, id: Seq<char>, i: int) -> Option<int>
    decreases s.len() - i,
{
    if i < 0 || i >= s.len() {
        None
    } else if s[i].ticket_id@ == id {
        Some(i)
    } else {
        find_ticket_from(s, id, i + 1)
    }
}

/// The index of the stored ticket under `id`, if one exists.
pub fn find_ticket(tickets: &Vec<TicketEntry>, id: &String) -> (r: Option<usize>)
    ensures
        match r {
            Some(i) => i < tickets@.len() && find_ticket_from(tickets@, id@, 0) == Some(i as int),
            None => find_ticket_from(tickets@, id@, 0) is None,
        },
{
    let mut i: usize = 0;
    while i < tickets.len()
        invariant
            0 <= i <= tickets.len(),
            find_ticket_from(tickets@, id@, i as int) == find_ticket_from(tickets@, id@, 0),
        decreases tickets.len() - i,
    {
        if tickets[i].ticket_id == *id {
            return Some(i);
        }
        i = i + 1;
    }
    None
}

/// True when some element of `v` has exactly the contents `s`.
pub open spec fn str_vec_contains(v: Seq<String>, s: Seq<char>) -> bool {
    exists|k: int| 0 <= k < v.len() && (#[trigger] v[k])@ == s
}

/// True when `v` holds a string with the contents of `s`.
fn str_vec_contains_exec(v: &Vec<String>, s: &String) -> (r: bool)
    ensures
        r == str_vec_contains(v@, s@),
{
    let mut i: usize = 0;
    while i < v.len()
        invariant
            0 <= i <= v.len(),
            forall|k: int| 0 <= k < i ==> (#[trigger] v@[k])@ != s@,
        decreases v.len() - i,
    {
        if v[i] == *s {
            return true;
        }
        i = i + 1;
    }
    false
}

/// Which route rows a route query selects: its destination and gateway
/// filters, intersected; an absent filter selects everything.
pub open spec fn route_query_keep(
    destination_ids: Option<Vec<String>>,
    gateway_ids: Option<Vec<String>>,
) -> spec_fn(crate::routing::Route) -> bool {
    |r: crate::routing::Route|
        (match destination_ids {
            None => true,
            Some(v) => str_vec_contains(v@, r.destination_id@),
        }) && (match gateway_ids {
            None => true,
            Some(v) => str_vec_contains(v@, r.gateway_id@),
        })
}

/// Fill a route query from the route table.
fn answer_route_query(query: RouteQuery, singleton: &Singleton) -> (r: RouteQuery)
    ensures
        r.destination_ids == query.destination_ids,
        r.gateway_ids == query.gateway_ids,
        r.routes matches Some(v) && v@ == crate::seq_util::filter_map(
            singleton.routes@,
            route_query_keep(query.destination_ids, query.gateway_ids),
            |rt: crate::routing::Route| rt,
        ),
{
    let ghost keep = route_query_keep(query.destination_ids, query.gateway_ids);
    let ghost fid = |rt: crate::routing::Route| rt;
    let mut out: Vec<crate::routing::Route> = Vec::new();
    let mut i: usize = 0;
    while i < singleton.routes.len()
        invariant
            0 <= i <= singleton.routes.len(),
            keep == route_query_keep(query.destination_ids, query.gateway_ids),
            fid == (|rt: crate::routing::Route| rt),
            out@ == crate::seq_util::filter_map(singleton.routes@.take(i as int), keep, fid),
        decreases singleton.routes.len() - i,
    {
        proof {
            crate::seq_util::lemma_filter_map_take_step(singleton.routes@, keep, fid, i as int);
        }
        let rt = &singleton.routes[i];
        let dest_ok = match &query.destination_ids {
            None => true,
            Some(v) => str_vec_contains_exec(v, &rt.destination_id),
        };
        let gw_ok = match &query.gateway_ids {
            None => true,
            Some(v) => str_vec_contains_exec(v, &rt.gateway_id),
        };
        if dest_ok && gw_ok {
            let copy = singleton.routes[i].clone();
            out.push(copy);
        }
        proof {
            assert(out@ =~= crate::seq_util::filter_map(
                singleton.routes@.take(i + 1 as int),
                keep,
                fid,
            ));
        }
        i = i + 1;
    }
    proof {
        assert(singleton.routes@.take(singleton.routes@.len() as int) =~= singleton.routes@);
    }
    RouteQuery {
        routes: Some(out),
        destination_ids: query.destination_ids,
        gateway_ids: query.gateway_ids,
    }
}

/// The stored traces whose key differs from `rid`.
pub open spec fn trace_entry_keep(rid: Seq<char>) -> spec_fn(TraceEntry) -> bool {
    |e: TraceEntry| e.request_id@ != rid
}

/// Identity on stored traces.
pub open spec fn trace_entry_fid() -> spec_fn(TraceEntry) -> TraceEntry {
    |e: TraceEntry| e
}

/// The stored tickets whose key differs from `id`.
pub open spec fn ticket_entry_keep(id: Seq<char>) -> spec_fn(TicketEntry) -> bool {
    |e: TicketEntry| e.ticket_id@ != id
}

/// Identity on stored tickets.
pub open spec fn ticket_entry_fid() -> spec_fn(TicketEntry) -> TicketEntry {
    |e: TicketEntry| e
}

/// The stored broadcasts whose key differs from `rid`.
pub open spec fn broadcast_entry_keep(rid: Seq<char>) -> spec_fn(
    crate::broadcasting::BroadcastEntry,
) -> bool {
    |e: crate::broadcasting::BroadcastEntry| e.request_id@ != rid
}

/// Identity on stored broadcasts.
pub open spec fn broadcast_entry_fid() -> spec_fn(crate::broadcasting::BroadcastEntry) -> crate::broadcasting::BroadcastEntry {
    |e: crate::broadcasting::BroadcastEntry| e
}

/// The node state stays as it was, except that the named tables may have
/// changed.
pub open spec fn same_state_except(
    s0: Singleton,
    s1: Singleton,
    backlog: bool,
    tickets: bool,
    traces: bool,
    broadcasts: bool,
) -> bool {
    &&& s1.configuration == s0.configuration
    &&& s1.peers@ == s0.peers@
    &&& s1.routes@ == s0.routes@
    &&& s1.broadcast_history@ == s0.broadcast_history@
    &&& (!backlog ==> s1.backlog@ == s0.backlog@)
    &&& (!tickets ==> s1.tickets@ == s0.tickets@)
    &&& (!traces ==> s1.traces@ == s0.traces@)
    &&& (!broadcasts ==> s1.broadcasts@ == s0.broadcasts@)
}

/// What beginning a trace under id `rid` does: the trace, stamped as
/// started at `now` and keyed by `rid`, replaces any stored trace under
/// that key, and a fresh zero-hop probe toward the trace's destination is
/// queued.  The stamped trace comes back in the answer.
pub open spec fn begin_trace_step(
    s0: Singleton,
    s1: Singleton,
    trace: Trace,
    rid: Seq<char>,
    resp: TicketMessage,
    now: u64,
) -> bool {
    &&& same_state_except(s0, s1, true, false, true, false)
    &&& s1.traces@.len() == crate::seq_util::filter_map(
        s0.traces@,
        trace_entry_keep(rid),
        trace_entry_fid(),
    ).len() + 1
    &&& s1.traces@.drop_last() == crate::seq_util::filter_map(
        s0.traces@,
        trace_entry_keep(rid),
        trace_entry_fid(),
    )
    &&& ({
        let e = s1.traces@.last();
        &&& e.request_id@ == rid
        &&& e.trace.events@ == trace.events@
        &&& e.trace.request_id matches Some(x) && x@ == rid
        &&& e.trace.destination_id@ == trace.destination_id@
        &&& e.trace.start_time == Some(now)
        &&& e.trace.stop_time == trace.stop_time
    })
    &&& s1.backlog@.len() == s0.backlog@.len() + 1
    &&& s1.backlog@.drop_last() == s0.backlog@
    &&& ({
        let mc = s1.backlog@.last();
        &&& mc.origin_id == s0.configuration.id
        &&& mc.destination_id matches Some(d) && d@ == trace.destination_id@
        &&& mc.messages@.len() == 1
        &&& mc.messages@[0] matches crate::message::Message::TraceRequest(tq) && tq.hop_count == 0
            && tq.request_id@ == rid
    })
    &&& (resp matches TicketMessage::BeginTrace(t2) && {
        &&& t2.events@ == trace.events@
        &&& t2.request_id matches Some(x) && x@ == rid
        &&& t2.destination_id@ == trace.destination_id@
        &&& t2.start_time == Some(now)
        &&& t2.stop_time == trace.stop_time
    })
}

/// What a ticket request does to the node, and what it answers: the
/// queries answer from the tables, the trace and broadcast controls drive
/// their state machines, and the test echoes.
pub open spec fn ticket_request_step(
    s0: Singleton,
    s1: Singleton,
    request: TicketRequest,
    r: TicketResponse,
    now: u64,
) -> bool {
    match request.ticket_message {
        TicketMessage::Test => same_state_except(s0, s1, false, false, false, false)
            && r.ticket_message is Test,
        TicketMessage::TicketQuery(_) => same_state_except(s0, s1, false, false, false, false) && (
        r.ticket_message matches TicketMessage::TicketQuery(q2) && q2.tickets matches Some(v)
            && v@.len() == s0.tickets@.len() && (forall|i: int|
            0 <= i < v@.len() ==> ticket_eqv(#[trigger] s0.tickets@[i].ticket, v@[i]))),
        TicketMessage::PeerQuery(_) => same_state_except(s0, s1, false, false, false, false) && (
        r.ticket_message matches TicketMessage::PeerQuery(q2) && q2.peers matches Some(v) && v@
            == s0.peers@),
        TicketMessage::RouteQuery(q) => same_state_except(s0, s1, false, false, false, false) && (
        r.ticket_message matches TicketMessage::RouteQuery(q2) && q2.destination_ids
            == q.destination_ids && q2.gateway_ids == q.gateway_ids && (q2.routes matches Some(v)
            && v@ == crate::seq_util::filter_map(
            s0.routes@,
            route_query_keep(q.destination_ids, q.gateway_ids),
            |rt: crate::routing::Route| rt,
        ))),
        TicketMessage::BeginTrace(trace) => (trace.request_id matches Some(id) ==> begin_trace_step(
            s0,
            s1,
            trace,
            id@,
            r.ticket_message,
            now,
        )) && (trace.request_id is None ==> exists|rid: Seq<char>|
            begin_trace_step(s0, s1, trace, rid, r.ticket_message, now)),
        TicketMessage::DrainTrace(trace) => match trace.request_id {
            None => same_state_except(s0, s1, false, false, false, false) && (
            r.ticket_message matches TicketMessage::DrainTrace(t2) && t2.eqv(trace)),
            Some(id) => match crate::tracing::find_trace_from(s0.traces@, id@, 0) {
                None => same_state_except(s0, s1, false, false, false, false) && (
                r.ticket_message matches TicketMessage::DrainTrace(t2) && t2.eqv(trace)),
                Some(i) => same_state_except(s0, s1, false, false, true, false) && s1.traces@
                    == s0.traces@.remove(i) && (
                r.ticket_message matches TicketMessage::DrainTrace(t2) && t2.eqv(
                    s0.traces@[i].trace,
                )),
            },
        },
        TicketMessage::PollTrace(trace) => same_state_except(s0, s1, false, false, false, false)
            && (match trace.request_id {
            None => r.ticket_message matches TicketMessage::PollTrace(t2) && t2.eqv(trace),
            Some(id) => match crate::tracing::find_trace_from(s0.traces@, id@, 0) {
                None => r.ticket_message matches TicketMessage::PollTrace(t2) && t2.eqv(trace),
                Some(i) => r.ticket_message matches TicketMessage::PollTrace(t2) && t2.eqv(
                    s0.traces@[i].trace,
                ),
            },
        }),
        TicketMessage::BeginBroadcast(b) => ({
            let with_origin = b.request.origin_id is Some;
            let rid = b.request.request_id@;
            &&& same_state_except(s0, s1, true, false, false, with_origin)
            &&& (with_origin ==> ({
                &&& s1.broadcasts@.len() == crate::seq_util::filter_map(
                    s0.broadcasts@,
                    broadcast_entry_keep(rid),
                    broadcast_entry_fid(),
                ).len() + 1
                &&& s1.broadcasts@.drop_last() == crate::seq_util::filter_map(
                    s0.broadcasts@,
                    broadcast_entry_keep(rid),
                    broadcast_entry_fid(),
                )
                &&& ({
                    let e = s1.broadcasts@.last();
                    &&& e.request_id@ == rid
                    &&& e.broadcast.request.request_id@ == rid
                    &&& e.broadcast.request.origin_id matches Some(o) && o@
                        == s0.configuration.id@
                    &&& e.broadcast.request.broadcast_message == b.request.broadcast_message
                    &&& crate::broadcasting::broadcast_response_seq_eqv(
                        b.responses@,
                        e.broadcast.responses@,
                    )
                })
            }))
            &&& s1.backlog@.len() == s0.backlog@.len() + 1
            &&& s1.backlog@.drop_last() == s0.backlog@
            &&& ({
                let mc = s1.backlog@.last();
                &&& mc.origin_id == s0.configuration.id
                &&& mc.destination_id is None
                &&& mc.messages@.len() == 1
                &&& mc.messages@[0] matches crate::message::Message::BroadcastRequest(bq)
                    && bq.request_id@ == rid && bq.broadcast_message == b.request.broadcast_message
                    && (with_origin ==> (bq.origin_id matches Some(o) && o@
                    == s0.configuration.id@)) && (!with_origin ==> bq.origin_id is None)
            })
            &&& (r.ticket_message matches TicketMessage::BeginBroadcast(b2) && b2.request.request_id@
                == rid && b2.request.broadcast_message == b.request.broadcast_message && (
            with_origin ==> (b2.request.origin_id matches Some(o) && o@
                == s0.configuration.id@)) && (!with_origin ==> b2.request.origin_id is None)
                && crate::broadcasting::broadcast_response_seq_eqv(b.responses@, b2.responses@))
        }),
        TicketMessage::PollBroadcast(b) => same_state_except(s0, s1, false, false, false, false)
            && (match crate::broadcasting::find_broadcast_from(
            s0.broadcasts@,
            b.request.request_id@,
            0,
        ) {
            None => r.ticket_message matches TicketMessage::PollBroadcast(b2) && b2.eqv(b),
            Some(i) => r.ticket_message matches TicketMessage::PollBroadcast(b2)
                && b2.request.eqv(b.request)
                && crate::broadcasting::broadcast_response_seq_eqv(
                s0.broadcasts@[i].broadcast.responses@,
                b2.responses@,
            ),
        }),
        TicketMessage::DrainBroadcast(b) => match crate::broadcasting::find_broadcast_from(
            s0.broadcasts@,
            b.request.request_id@,
            0,
        ) {
            None => same_state_except(s0, s1, false, false, false, false) && (
            r.ticket_message matches TicketMessage::DrainBroadcast(b2) && b2.eqv(b)),
            Some(i) => same_state_except(s0, s1, false, false, false, true) && s1.broadcasts@
                == s0.broadcasts@.remove(i) && (
            r.ticket_message matches TicketMessage::DrainBroadcast(b2) && b2.request.eqv(b.request)
                && crate::broadcasting::broadcast_response_seq_eqv(
                s0.broadcasts@[i].broadcast.responses@,
                b2.responses@,
            )),
        },
    }
}

/// Dispatch a ticket request against the local tables: answer queries,
/// drive the trace and broadcast state machines, echo tests.  The answer
/// carries the request's ticket id.
pub fn process_ticket_request(
    ticket_request: TicketRequest,
    singleton: &mut Singleton,
    now_millis: u64,
) -> (r: TicketResponse)
    ensures
        r.ticket_id == ticket_request.ticket_id,
        ticket_request_step(*old(singleton), *final(singleton), ticket_request, r, now_millis),
{
    let TicketRequest { ticket_message, ticket_id } = ticket_request;
    match ticket_message {
        TicketMessage::Test => TicketResponse { ticket_message: TicketMessage::Test, ticket_id },
        TicketMessage::TicketQuery(_) => {
            let mut results: Vec<Ticket> = Vec::new();
            let mut i: usize = 0;
            while i < singleton.tickets.len()
                invariant
                    0 <= i <= singleton.tickets.len(),
                    results@.len() == i,
                    forall|k: int|
                        0 <= k < i ==> ticket_eqv(
                            #[trigger] singleton.tickets@[k].ticket,
                            results@[k],
                        ),
                decreases singleton.tickets.len() - i,
            {
                let t = singleton.tickets[i].ticket.clone();
                results.push(t);
                i = i + 1;
            }
            TicketResponse {
                ticket_message: TicketMessage::TicketQuery(TicketQuery { tickets: Some(results) }),
                ticket_id,
            }
        },
        TicketMessage::PeerQuery(_) => {
            let mut results: Vec<crate::peering::Peer> = Vec::new();
            let mut i: usize = 0;
            while i < singleton.peers.len()
                invariant
                    0 <= i <= singleton.peers.len(),
                    results@ =~= singleton.peers@.take(i as int),
                decreases singleton.peers.len() - i,
            {
                let p = singleton.peers[i].clone();
                results.push(p);
                proof {
                    assert(results@ =~= singleton.peers@.take(i + 1 as int));
                }
                i = i + 1;
            }
            proof {
                assert(results@ =~= singleton.peers@);
            }
            TicketResponse {
                ticket_message: TicketMessage::PeerQuery(
                    crate::peering::PeerQuery { peers: Some(results) },
                ),
                ticket_id,
            }
        },
        TicketMessage::RouteQuery(query) => {
            let answered = answer_route_query(query, singleton);
            TicketResponse { ticket_message: TicketMessage::RouteQuery(answered), ticket_id }
        },
        TicketMessage::BeginTrace(trace) => {
            let request_id = match &trace.request_id {
                Some(id) => id.clone(),
                None => crate::state::fresh_request_id(),
            };
            let response_trace = begin_trace(trace, request_id, singleton, now_millis);
            TicketResponse {
                ticket_message: TicketMessage::BeginTrace(response_trace),
                ticket_id,
            }
        },
        TicketMessage::DrainTrace(trace) => {
            let out = match &trace.request_id {
                Some(rid) => {
                    let slot = crate::tracing::find_trace(&singleton.traces, rid);
                    match slot {
                        Some(i) => {
                            let entry = singleton.traces.remove(i);
                            entry.trace
                        },
                        None => trace,
                    }
                },
                None => trace,
            };
            proof {
                crate::tracing::lemma_trace_eqv_from_parts(out, out);
            }
            TicketResponse { ticket_message: TicketMessage::DrainTrace(out), ticket_id }
        },
        TicketMessage::PollTrace(trace) => {
            let out = match &trace.request_id {
                Some(rid) => {
                    let slot = crate::tracing::find_trace(&singleton.traces, rid);
                    match slot {
                        Some(i) => singleton.traces[i].trace.clone(),
                        None => trace,
                    }
                },
                None => trace,
            };
            proof {
                crate::tracing::lemma_trace_eqv_from_parts(out, out);
            }
            TicketResponse { ticket_message: TicketMessage::PollTrace(out), ticket_id }
        },
        TicketMessage::BeginBroadcast(broadcast) => {
            let out = begin_broadcast_request(broadcast, singleton);
            TicketResponse { ticket_message: TicketMessage::BeginBroadcast(out), ticket_id }
        },
        TicketMessage::PollBroadcast(broadcast) => {
            let slot = crate::broadcasting::find_broadcast(
                &singleton.broadcasts,
                &broadcast.request.request_id,
            );
            let out = match slot {
                Some(i) => {
                    let responses = duplicate_broadcast_responses(
                        &singleton.broadcasts[i].broadcast.responses,
                    );
                    crate::broadcasting::Broadcast { request: broadcast.request, responses }
                },
                None => broadcast,
            };
            proof {
                crate::broadcasting::lemma_broadcast_responses_eqv_refl(out.responses@);
                crate::broadcasting::lemma_broadcast_responses_eqv_refl(out.responses@);
            }
            TicketResponse { ticket_message: TicketMessage::PollBroadcast(out), ticket_id }
        },
        TicketMessage::DrainBroadcast(broadcast) => {
            let slot = crate::broadcasting::find_broadcast(
                &singleton.broadcasts,
                &broadcast.request.request_id,
            );
            let out = match slot {
                Some(i) => {
                    let entry = singleton.broadcasts.remove(i);
                    crate::broadcasting::Broadcast {
                        request: broadcast.request,
                        responses: entry.broadcast.responses,
                    }
                },
                None => broadcast,
            };
            proof {
                crate::broadcasting::lemma_broadcast_responses_eqv_refl(out.responses@);
            }
            TicketResponse { ticket_message: TicketMessage::DrainBroadcast(out), ticket_id }
        },
    }
}

/// Copy a list of collected answers; the copy is equal.
fn duplicate_broadcast_responses(
    v: &Vec<crate::broadcasting::BroadcastResponseEntry>,
) -> (r: Vec<crate::broadcasting::BroadcastResponseEntry>)
    ensures
        r@ == v@,
{
    let mut out: Vec<crate::broadcasting::BroadcastResponseEntry> = Vec::new();
    let mut i: usize = 0;
    while i < v.len()
        invariant
            0 <= i <= v.len(),
            out@ =~= v@.take(i as int),
        decreases v.len() - i,
    {
        out.push(v[i].clone());
        proof {
            assert(out@ =~= v@.take(i + 1 as int));
        }
        i = i + 1;
    }
    proof {
        assert(out@ =~= v@);
    }
    out
}

/// Begin a trace under `request_id`: stamp it as started now, store it
/// under that key (replacing any stored trace there), and queue a fresh
/// probe toward its destination.  The stamped trace is returned.
fn begin_trace(trace: Trace, request_id: String, singleton: &mut Singleton, now_millis: u64) -> (r:
    Trace)
    ensures
        begin_trace_step(
            *old(singleton),
            *final(singleton),
            trace,
            request_id@,
            TicketMessage::BeginTrace(r),
            now_millis,
        ),
{
    let ghost traces0 = singleton.traces@;
    let ghost rid = request_id@;
    let ghost keep = trace_entry_keep(rid);
    let ghost fid = trace_entry_fid();

    let mut stamped = trace;
    stamped.start_time = Some(now_millis);
    stamped.request_id = Some(request_id.clone());

    let mut kept: Vec<TraceEntry> = Vec::new();
    let ghost mut seen: int = 0;
    while singleton.traces.len() > 0
        invariant
            0 <= seen <= traces0.len(),
            rid == request_id@,
            keep == trace_entry_keep(rid),
            fid == trace_entry_fid(),
            singleton.configuration == old(singleton).configuration,
            singleton.peers@ == old(singleton).peers@,
            singleton.routes@ == old(singleton).routes@,
            singleton.backlog@ == old(singleton).backlog@,
            singleton.tickets@ == old(singleton).tickets@,
            singleton.broadcasts@ == old(singleton).broadcasts@,
            singleton.broadcast_history@ == old(singleton).broadcast_history@,
            traces0 == old(singleton).traces@,
            singleton.traces@ == traces0.skip(seen),
            kept@ == crate::seq_util::filter_map(traces0.take(seen), keep, fid),
        decreases singleton.traces.len(),
    {
        proof {
            crate::seq_util::lemma_filter_map_take_step(traces0, keep, fid, seen);
            assert(singleton.traces@[0] == traces0[seen]);
        }
        let e = singleton.traces.remove(0);
        if !(e.request_id == request_id) {
            kept.push(e);
        }
        proof {
            seen = seen + 1;
            assert(singleton.traces@ =~= traces0.skip(seen));
            assert(kept@ =~= crate::seq_util::filter_map(traces0.take(seen), keep, fid));
        }
    }
    proof {
        assert(traces0.take(seen) =~= traces0);
    }
    let stored = stamped.clone();
    let entry = TraceEntry { request_id: request_id.clone(), trace: stored };
    kept.push(entry);
    singleton.traces = kept;
    proof {
        assert(singleton.traces@.drop_last() =~= crate::seq_util::filter_map(traces0, keep, fid));
    }

    let probe = crate::tracing::TraceRequest::new(request_id);
    let mc = crate::message::MessageCollection {
        messages: vec![crate::message::Message::TraceRequest(probe)],
        origin_id: singleton.configuration.id.clone(),
        destination_id: Some(stamped.destination_id.clone()),
    };
    singleton.backlog.push(mc);
    proof {
        assert(singleton.backlog@.drop_last() =~= old(singleton).backlog@);
        let s0 = *old(singleton);
        let s1 = *singleton;
        assert(same_state_except(s0, s1, true, false, true, false));
        assert(s1.traces@.drop_last() == crate::seq_util::filter_map(
            s0.traces@,
            trace_entry_keep(rid),
            trace_entry_fid(),
        ));
        assert(s1.traces@.len() == crate::seq_util::filter_map(
            s0.traces@,
            trace_entry_keep(rid),
            trace_entry_fid(),
        ).len() + 1);
        let e = s1.traces@.last();
        assert(e.request_id@ == rid);
        assert(e.trace.events@ == stamped.events@);
        assert(e.trace.request_id matches Some(x) && x@ == rid);
        assert(e.trace.start_time == Some(now_millis));
        assert(s1.backlog@.len() == s0.backlog@.len() + 1);
        let mcl = s1.backlog@.last();
        assert(mcl.origin_id == s0.configuration.id);
        assert(mcl.destination_id matches Some(d) && d@ == stamped.destination_id@);
        assert(mcl.messages@.len() == 1);
        assert(mcl.messages@[0] matches crate::message::Message::TraceRequest(tq) && tq.hop_count
            == 0 && tq.request_id@ == rid);
        assert(e.trace.destination_id@ == trace.destination_id@);
        assert(e.trace.stop_time == trace.stop_time);
        assert(e.trace.events@ == trace.events@);
        let resp = TicketMessage::BeginTrace(stamped);
        assert(resp matches TicketMessage::BeginTrace(t2) && {
            &&& t2.events@ == trace.events@
            &&& t2.request_id matches Some(x) && x@ == rid
            &&& t2.destination_id@ == trace.destination_id@
            &&& t2.start_time == Some(now_millis)
            &&& t2.stop_time == trace.stop_time
        });
        assert(begin_trace_step(s0, s1, trace, rid, resp, now_millis));
    }
    stamped
}

/// Begin a broadcast: when the request names a collector, replace it with
/// this node's id and store the broadcast under its request id (replacing
/// any stored one); either way queue the flood request with no explicit
/// destination.  The (possibly restamped) broadcast is returned.
fn begin_broadcast_request(
    broadcast: crate::broadcasting::Broadcast,
    singleton: &mut Singleton,
) -> (r: crate::broadcasting::Broadcast)
    ensures
        ticket_request_step(
            *old(singleton),
            *final(singleton),
            TicketRequest {
                ticket_message: TicketMessage::BeginBroadcast(broadcast),
                ticket_id: broadcast.request.request_id,
            },
            TicketResponse {
                ticket_message: TicketMessage::BeginBroadcast(r),
                ticket_id: broadcast.request.request_id,
            },
            0,
        ),
{
    let ghost b0 = broadcast;
    let with_origin = match &broadcast.request.origin_id {
        Some(_) => true,
        None => false,
    };
    let mut broadcast = broadcast;
    if with_origin {
        broadcast.request.origin_id = Some(singleton.configuration.id.clone());
    }
    if with_origin {
        let ghost broadcasts0 = singleton.broadcasts@;
        let ghost rid = broadcast.request.request_id@;
        let ghost keep = broadcast_entry_keep(rid);
        let ghost fid = broadcast_entry_fid();
        let mut kept: Vec<crate::broadcasting::BroadcastEntry> = Vec::new();
        let ghost mut seen: int = 0;
        while singleton.broadcasts.len() > 0
            invariant
                0 <= seen <= broadcasts0.len(),
                rid == broadcast.request.request_id@,
                keep == broadcast_entry_keep(rid),
                fid == broadcast_entry_fid(),
                singleton.configuration == old(singleton).configuration,
                singleton.peers@ == old(singleton).peers@,
                singleton.routes@ == old(singleton).routes@,
                singleton.backlog@ == old(singleton).backlog@,
                singleton.tickets@ == old(singleton).tickets@,
                singleton.traces@ == old(singleton).traces@,
                singleton.broadcast_history@ == old(singleton).broadcast_history@,
                broadcasts0 == old(singleton).broadcasts@,
                singleton.broadcasts@ == broadcasts0.skip(seen),
                kept@ == crate::seq_util::filter_map(broadcasts0.take(seen), keep, fid),
            decreases singleton.broadcasts.len(),
        {
            proof {
                crate::seq_util::lemma_filter_map_take_step(broadcasts0, keep, fid, seen);
                assert(singleton.broadcasts@[0] == broadcasts0[seen]);
            }
            let e = singleton.broadcasts.remove(0);
            if !(e.request_id == broadcast.request.request_id) {
                kept.push(e);
            }
            proof {
                seen = seen + 1;
                assert(singleton.broadcasts@ =~= broadcasts0.skip(seen));
                assert(kept@ =~= crate::seq_util::filter_map(broadcasts0.take(seen), keep, fid));
            }
        }
        proof {
            assert(broadcasts0.take(seen) =~= broadcasts0);
        }
        let stored = broadcast.clone();
        let entry = crate::broadcasting::BroadcastEntry {
            request_id: broadcast.request.request_id.clone(),
            broadcast: stored,
        };
        kept.push(entry);
        singleton.broadcasts = kept;
        proof {
            assert(singleton.broadcasts@.drop_last() =~= crate::seq_util::filter_map(
                broadcasts0,
                keep,
                fid,
            ));
        }
    }
    let mc = crate::message::MessageCollection {
        messages: vec![
            crate::message::Message::BroadcastRequest(broadcast.request.clone()),
        ],
        origin_id: singleton.configuration.id.clone(),
        destination_id: None,
    };
    singleton.backlog.push(mc);
    proof {
        assert(singleton.backlog@.drop_last() =~= old(singleton).backlog@);
        crate::broadcasting::lemma_broadcast_responses_eqv_refl(broadcast.responses@);
        assert(broadcast.responses@ == b0.responses@);
    }
    broadcast
}

/// Store a ticket answer under its id: the stored ticket learns its
/// response and its stop time; an answer for an unknown id is dropped.
pub fn process_ticket_response(
    ticket_response: TicketResponse,
    singleton: &mut Singleton,
    now_millis: u64,
)
    ensures
        ({
            let t0 = old(singleton).tickets@;
            let t1 = final(singleton).tickets@;
            match find_ticket_from(t0, ticket_response.ticket_id@, 0) {
                None => t1 == t0,
                Some(i) => {
                    &&& t1.len() == t0.len()
                    &&& forall|k: int| 0 <= k < t0.len() && k != i ==> t1[k] == t0[k]
                    &&& t1[i].ticket_id == t0[i].ticket_id
                    &&& t1[i].ticket.request == t0[i].ticket.request
                    &&& t1[i].ticket.response == Some(ticket_response.ticket_message)
                    &&& t1[i].ticket.destination_id == t0[i].ticket.destination_id
                    &&& t1[i].ticket.start_time == t0[i].ticket.start_time
                    &&& t1[i].ticket.stop_time == Some(now_millis)
                },
            }
        }),
        final(singleton).configuration == old(singleton).configuration,
        final(singleton).peers@ == old(singleton).peers@,
        final(singleton).routes@ == old(singleton).routes@,
        final(singleton).backlog@ == old(singleton).backlog@,
        final(singleton).traces@ == old(singleton).traces@,
        final(singleton).broadcasts@ == old(singleton).broadcasts@,
        final(singleton).broadcast_history@ == old(singleton).broadcast_history@,
{
    let slot = find_ticket(&singleton.tickets, &ticket_response.ticket_id);
    match slot {
        Some(i) => {
            let mut entry = singleton.tickets.remove(i);
            entry.ticket.response = Some(ticket_response.ticket_message);
            entry.ticket.stop_time = Some(now_millis);
            singleton.tickets.insert(i, entry);
            proof {
                assert(singleton.tickets@ =~= old(singleton).tickets@.update(
                    i as int,
                    singleton.tickets@[i as int],
                ));
            }
        },
        None => (),
    }
}

/// Open a ticket: store it under the given id (or a randomly drawn one),
/// replacing any stored ticket under that id, queue its request toward
/// the destination, and return the id.
pub fn send_ticket(
    ticket_message: TicketMessage,
    ticket_id: Option<String>,
    destination_id: Option<String>,
    singleton: &mut Singleton,
    now_millis: u64,
) -> (r: String)
    ensures
        ticket_id matches Some(given) ==> r == given,
        final(singleton).tickets@.len() == crate::seq_util::filter_map(
            old(singleton).tickets@,
            ticket_entry_keep(r@),
            ticket_entry_fid(),
        ).len() + 1,
        final(singleton).tickets@.drop_last() == crate::seq_util::filter_map(
            old(singleton).tickets@,
            ticket_entry_keep(r@),
            ticket_entry_fid(),
        ),
        ({
            let e = final(singleton).tickets@.last();
            &&& e.ticket_id == r
            &&& e.ticket.request.ticket_id == r
            &&& ticket_message_eqv(ticket_message, e.ticket.request.ticket_message)
            &&& e.ticket.response is None
            &&& crate::seq_util::opt_str_eqv(e.ticket.destination_id, destination_id)
            &&& e.ticket.start_time == now_millis
            &&& e.ticket.stop_time is None
        }),
        final(singleton).backlog@.len() == old(singleton).backlog@.len() + 1,
        final(singleton).backlog@.drop_last() == old(singleton).backlog@,
        ({
            let mc = final(singleton).backlog@.last();
            &&& mc.origin_id == old(singleton).configuration.id
            &&& mc.destination_id == destination_id
            &&& mc.messages@.len() == 1
            &&& mc.messages@[0] matches crate::message::Message::TicketRequest(tq) && tq.ticket_id
                == r && tq.ticket_message == ticket_message
        }),
        final(singleton).configuration == old(singleton).configuration,
        final(singleton).peers@ == old(singleton).peers@,
        final(singleton).routes@ == old(singleton).routes@,
        final(singleton).traces@ == old(singleton).traces@,
        final(singleton).broadcasts@ == old(singleton).broadcasts@,
        final(singleton).broadcast_history@ == old(singleton).broadcast_history@,
{
    let ticket_id = match ticket_id {
        Some(id) => id,
        None => crate::state::fresh_request_id(),
    };
    let stored_destination = match &destination_id {
        Some(d) => Some(d.clone()),
        None => None,
    };
    let stored = Ticket {
        request: TicketRequest {
            ticket_message: ticket_message.clone(),
            ticket_id: ticket_id.clone(),
        },
        response: None,
        destination_id: stored_destination,
        start_time: now_millis,
        stop_time: None,
    };
    let ghost tickets0 = singleton.tickets@;
    let ghost tid = ticket_id@;
    let ghost keep = ticket_entry_keep(tid);
    let ghost fid = ticket_entry_fid();
    let mut kept: Vec<TicketEntry> = Vec::new();
    let ghost mut seen: int = 0;
    while singleton.tickets.len() > 0
        invariant
            0 <= seen <= tickets0.len(),
            tid == ticket_id@,
            keep == ticket_entry_keep(tid),
            fid == ticket_entry_fid(),
            tickets0 == old(singleton).tickets@,
            singleton.configuration == old(singleton).configuration,
            singleton.peers@ == old(singleton).peers@,
            singleton.routes@ == old(singleton).routes@,
            singleton.backlog@ == old(singleton).backlog@,
            singleton.traces@ == old(singleton).traces@,
            singleton.broadcasts@ == old(singleton).broadcasts@,
            singleton.broadcast_history@ == old(singleton).broadcast_history@,
            singleton.tickets@ == tickets0.skip(seen),
            kept@ == crate::seq_util::filter_map(tickets0.take(seen), keep, fid),
        decreases singleton.tickets.len(),
    {
        proof {
            crate::seq_util::lemma_filter_map_take_step(tickets0, keep, fid, seen);
            assert(singleton.tickets@[0] == tickets0[seen]);
        }
        let e = singleton.tickets.remove(0);
        if !(e.ticket_id == ticket_id) {
            kept.push(e);
        }
        proof {
            seen = seen + 1;
            assert(singleton.tickets@ =~= tickets0.skip(seen));
            assert(kept@ =~= crate::seq_util::filter_map(tickets0.take(seen), keep, fid));
        }
    }
    proof {
        assert(tickets0.take(seen) =~= tickets0);
    }
    let entry = TicketEntry { ticket_id: ticket_id.clone(), ticket: stored };
    kept.push(entry);
    singleton.tickets = kept;
    proof {
        assert(singleton.tickets@.drop_last() =~= crate::seq_util::filter_map(
            tickets0,
            keep,
            fid,
        ));
    }
    let mc = crate::message::MessageCollection {
        messages: vec![
            crate::message::Message::TicketRequest(
                TicketRequest { ticket_message, ticket_id: ticket_id.clone() },
            ),
        ],
        origin_id: singleton.configuration.id.clone(),
        destination_id,
    };
    singleton.backlog.push(mc);
    proof {
        assert(singleton.backlog@.drop_last() =~= old(singleton).backlog@);
    }
    ticket_id
}

/// The outcome of one poll for a ticket's answer.
pub enum TicketPoll {
    Ready(TicketMessage),
    Pending,
    Missing,
}

/// Poll for the answer to ticket `ticket_id`: when the stored ticket has
/// one, the ticket is consumed and the answer handed out; a still-open
/// ticket stays; an unknown id reports so.
pub fn take_ticket_response(ticket_id: &String, singleton: &mut Singleton) -> (r: TicketPoll)
    ensures
        ({
            let t0 = old(singleton).tickets@;
            match find_ticket_from(t0, ticket_id@, 0) {
                None => r is Missing && final(singleton).tickets@ == t0,
                Some(i) => match t0[i].ticket.response {
                    Some(m) => r == TicketPoll::Ready(m) && final(singleton).tickets@ == t0.remove(
                        i,
                    ),
                    None => r is Pending && final(singleton).tickets@ == t0,
                },
            }
        }),
        final(singleton).configuration == old(singleton).configuration,
        final(singleton).peers@ == old(singleton).peers@,
        final(singleton).routes@ == old(singleton).routes@,
        final(singleton).backlog@ == old(singleton).backlog@,
        final(singleton).traces@ == old(singleton).traces@,
        final(singleton).broadcasts@ == old(singleton).broadcasts@,
        final(singleton).broadcast_history@ == old(singleton).broadcast_history@,
{
    let slot = find_ticket(&singleton.tickets, ticket_id);
    match slot {
        None => TicketPoll::Missing,
        Some(i) => {
            let has_response = match &singleton.tickets[i].ticket.response {
                Some(_) => true,
                None => false,
            };
            if has_response {
                let entry = singleton.tickets.remove(i);
                match entry.ticket.response {
                    Some(m) => TicketPoll::Ready(m),
                    None => TicketPoll::Pending,
                }
            } else {
                TicketPoll::Pending
            }
        },
    }
}

/// The total of a sequence of delays, in milliseconds.
pub open spec fn delay_sum(s: Seq<u64>) -> int
    decreases s.len(),
{
    if s.len() == 0 {
        0
    } else {
        delay_sum(s.drop_last()) + s.last()
    }
}

/// The waits of an exponential-backoff poll for a ticket: starting at ten
/// milliseconds and doubling, while the delay stays under `expiration`.
/// However the remote side behaves, a poll that sleeps these waits in
/// turn stops within twice `expiration` of total sleep: the delays sum to
/// less than that.
pub fn backoff_schedule(expiration: u64) -> (r: Vec<u64>)
    ensures
        delay_sum(r@) < 2 * expiration + 10,
        forall|k: int| 0 <= k < r@.len() ==> #[trigger] r@[k] < expiration,
        forall|k: int| 0 <= k && k + 1 < r@.len() ==> #[trigger] r@[k + 1] == 2 * r@[k],
        r@.len() > 0 ==> r@[0] == 10,
        expiration > 10 ==> r@.len() > 0,
{
    let mut out: Vec<u64> = Vec::new();
    let mut delay: u64 = 10;
    while delay < expiration
        invariant
            out@.len() == 0 ==> delay == 10,
            out@.len() > 0 ==> delay as int == 2 * out@.last(),
            delay_sum(out@) == delay as int - 10,
            forall|k: int| 0 <= k < out@.len() ==> #[trigger] out@[k] < expiration,
            forall|k: int| 0 <= k && k + 1 < out@.len() ==> #[trigger] out@[k + 1] == 2 * out@[k],
            out@.len() > 0 ==> out@[0] == 10,
            delay >= 10,
        decreases expiration - delay,
    {
        let ghost pre = out@;
        out.push(delay);
        proof {
            assert(out@.drop_last() =~= pre);
        }
        if delay > expiration / 2 {
            proof {
                assert(delay_sum(out@) == delay_sum(pre) + delay);
                assert(delay_sum(out@) == 2 * delay - 10);
                assert forall|k: int| 0 <= k && k + 1 < out@.len() implies #[trigger] out@[k + 1]
                    == 2 * out@[k] by {
                    if k + 1 < pre.len() {
                        assert(out@[k + 1] == pre[k + 1]);
                        assert(out@[k] == pre[k]);
                    } else {
                        assert(out@[k + 1] == delay);
                        assert(out@[k] == pre.last());
                    }
                }
            }
            return out;
        }
        delay = delay * 2;
    }
    out
}

} // verus!
