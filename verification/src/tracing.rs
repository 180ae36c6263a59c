use vstd::prelude::*;

use crate::state::fresh_request_id;
use crate::state::Singleton;

verus! {

/// An outbound path probe; every transit hop bumps `hop_count`.
pub struct TraceRequest {
    pub hop_count: usize,
    pub request_id: String,
}

/// The terminal reply a probe's destination sends back.
pub struct TraceResponse {
    pub hop_count: usize,
    pub request_id: String,
}

/// Which way a hop report looked: along the probe or along the reply.
#[derive(PartialEq, Eq, Structural, Clone, Copy, Debug)]
pub enum Direction {
    Outbound,
    Inbound,
}

/// One per-hop report, sent back toward the probe's initiator.
pub struct TraceEvent {
    pub hop_count: usize,
    pub request_id: String,
    pub local_time: u64,
    pub id: String,
    pub direction: Direction,
}

/// A path-discovery record: the hop events gathered so far, keyed by
/// `request_id`, closed when `stop_time` is set.
pub struct Trace {
    pub events: Vec<TraceEvent>,
    pub request_id: Option<String>,
    pub destination_id: String,
    pub start_time: Option<u64>,
    pub stop_time: Option<u64>,
}

/// A stored trace with its key.
pub struct TraceEntry {
    pub request_id: String,
    pub trace: Trace,
}

impl Clone for TraceRequest {
    fn clone(&self) -> (r: Self)
        ensures
            r == *self,
    {
        TraceRequest { hop_count: self.hop_count, request_id: self.request_id.clone() }
    }
}

impl Clone for TraceResponse {
    fn clone(&self) -> (r: Self)
        ensures
            r == *self,
    {
        TraceResponse { hop_count: self.hop_count, request_id: self.request_id.clone() }
    }
}

impl Clone for TraceEvent {
    fn clone(&self) -> (r: Self)
        ensures
            r == *self,
    {
        TraceEvent {
            hop_count: self.hop_count,
            request_id: self.request_id.clone(),
            local_time: self.local_time,
            id: self.id.clone(),
            direction: self.direction,
        }
    }
}

impl Clone for Trace {
    fn clone(&self) -> (r: Self)
        ensures
            r.events@ == self.events@,
            r.request_id == self.request_id,
            r.destination_id == self.destination_id,
            r.start_time == self.start_time,
            r.stop_time == self.stop_time,
    {
        let mut events: Vec<TraceEvent> = Vec::new();
        let mut i: usize = 0;
        while i < self.events.len()
            invariant
                0 <= i <= self.events.len(),
                events@ =~= self.events@.take(i as int),
            decreases self.events.len() - i,
        {
            events.push(self.events[i].clone());
            proof {
                assert(events@ =~= self.events@.take(i + 1 as int));
            }
            i = i + 1;
        }
        proof {
            assert(events@ =~= self.events@);
        }
        Trace {
            events,
            request_id: match &self.request_id {
                Some(s) => Some(s.clone()),
                None => None,
            },
            destination_id: self.destination_id.clone(),
            start_time: self.start_time,
            stop_time: self.stop_time,
        }
    }
}

impl TraceRequest {
    /// Deep equality, strings compared by contents.
    pub open spec fn eqv(self, o: TraceRequest) -> bool {
        self.hop_count == o.hop_count && self.request_id@ == o.request_id@
    }
}

impl TraceResponse {
    /// Deep equality, strings compared by contents.
    pub open spec fn eqv(self, o: TraceResponse) -> bool {
        self.hop_count == o.hop_count && self.request_id@ == o.request_id@
    }
}

impl TraceEvent {
    /// Deep equality, strings compared by contents.
    pub open spec fn eqv(self, o: TraceEvent) -> bool {
        &&& self.hop_count == o.hop_count
        &&& self.request_id@ == o.request_id@
        &&& self.local_time == o.local_time
        &&& self.id@ == o.id@
        &&& self.direction == o.direction
    }
}

/// Deep equality of event sequences, elementwise.
pub open spec fn trace_event_seq_eqv(a: Seq<TraceEvent>, b: Seq<TraceEvent>) -> bool {
    a.len() == b.len() && forall|i: int| 0 <= i < a.len() ==> #[trigger] a[i].eqv(b[i])
}

impl Trace {
    /// Deep equality, strings compared by contents.
    pub open spec fn eqv(self, o: Trace) -> bool {
        &&& trace_event_seq_eqv(self.events@, o.events@)
        &&& crate::seq_util::opt_str_eqv(self.request_id, o.request_id)
        &&& self.destination_id@ == o.destination_id@
        &&& self.start_time == o.start_time
        &&& self.stop_time == o.stop_time
    }
}

/// Two traces that agree field for field are deeply equal.
pub proof fn lemma_trace_eqv_from_parts(a: Trace, b: Trace)
    requires
        a.events@ == b.events@,
        a.request_id == b.request_id,
        a.destination_id@ == b.destination_id@,
        a.start_time == b.start_time,
        a.stop_time == b.stop_time,
    ensures
        a.eqv(b),
{
    assert forall|i: int| 0 <= i < a.events@.len() implies #[trigger] a.events@[i].eqv(
        b.events@[i],
    ) by {
        assert(a.events@[i] == b.events@[i]);
    }
}

/// The first stored trace under `rid`, scanning from `i`.
pub open spec fn find_trace_from(s: Seq<TraceEntry>, rid: Seq<char>, i: int) -> Option<int>
    decreases s.len() - i,
{
    if i < 0 || i >= s.len() {
        None
    } else if s[i].request_id@ == rid {
        Some(i)
    } else {
        find_trace_from(s, rid, i + 1)
    }
}

/// The index of the stored trace under `rid`, if one exists.
pub fn find_trace(traces: &Vec<TraceEntry>, rid: &String) -> (r: Option<usize>)
    ensures
        match r {
            Some(i) => i < traces@.len() && find_trace_from(traces@, rid@, 0) == Some(i as int),
            None => find_trace_from(traces@, rid@, 0) is None,
        },
{
    let mut i: usize = 0;
    while i < traces.len()
        invariant
            0 <= i <= traces.len(),
            find_trace_from(traces@, rid@, i as int) == find_trace_from(traces@, rid@, 0),
        decreases traces.len() - i,
    {
        if traces[i].request_id == *rid {
            return Some(i);
        }
        i = i + 1;
    }
    None
}

/// Append a reported hop to the trace stored under its request id; a
/// report for an unknown trace is dropped.
pub fn record_trace_event(trace_event: TraceEvent, singleton: &mut Singleton)
    ensures
        ({
            let t0 = old(singleton).traces@;
            let t1 = final(singleton).traces@;
            match find_trace_from(t0, trace_event.request_id@, 0) {
                None => t1 == t0,
                Some(i) => {
                    &&& t1.len() == t0.len()
                    &&& t1[i].request_id == t0[i].request_id
                    &&& t1[i].trace.events@ == t0[i].trace.events@.push(trace_event)
                    &&& t1[i].trace.request_id == t0[i].trace.request_id
                    &&& t1[i].trace.destination_id == t0[i].trace.destination_id
                    &&& t1[i].trace.start_time == t0[i].trace.start_time
                    &&& t1[i].trace.stop_time == t0[i].trace.stop_time
                    &&& forall|k: int| 0 <= k < t0.len() && k != i ==> t1[k] == t0[k]
                },
            }
        }),
        final(singleton).configuration == old(singleton).configuration,
        final(singleton).peers@ == old(singleton).peers@,
        final(singleton).routes@ == old(singleton).routes@,
        final(singleton).backlog@ == old(singleton).backlog@,
        final(singleton).tickets@ == old(singleton).tickets@,
        final(singleton).broadcasts@ == old(singleton).broadcasts@,
        final(singleton).broadcast_history@ == old(singleton).broadcast_history@,
{
    let slot = find_trace(&singleton.traces, &trace_event.request_id);
    match slot {
        Some(i) => {
            let mut entry = singleton.traces.remove(i);
            entry.trace.events.push(trace_event);
            singleton.traces.insert(i, entry);
            proof {
                assert(singleton.traces@ =~= old(singleton).traces@.update(
                    i as int,
                    singleton.traces@[i as int],
                ));
            }
        },
        None => (),
    }
}

/// Stamp the stored trace under `request_id` as finished at `now_millis`;
/// a finish report for an unknown trace is dropped.
pub fn close_trace(request_id: &String, singleton: &mut Singleton, now_millis: u64)
    ensures
        match find_trace_from(old(singleton).traces@, request_id@, 0) {
            None => final(singleton).traces@ == old(singleton).traces@,
            Some(i) => final(singleton).traces@ == old(singleton).traces@.update(
                i,
                TraceEntry {
                    request_id: old(singleton).traces@[i].request_id,
                    trace: Trace {
                        events: old(singleton).traces@[i].trace.events,
                        request_id: old(singleton).traces@[i].trace.request_id,
                        destination_id: old(singleton).traces@[i].trace.destination_id,
                        start_time: old(singleton).traces@[i].trace.start_time,
                        stop_time: Some(now_millis),
                    },
                },
            ),
        },
        final(singleton).configuration == old(singleton).configuration,
        final(singleton).peers@ == old(singleton).peers@,
        final(singleton).routes@ == old(singleton).routes@,
        final(singleton).backlog@ == old(singleton).backlog@,
        final(singleton).tickets@ == old(singleton).tickets@,
        final(singleton).broadcasts@ == old(singleton).broadcasts@,
        final(singleton).broadcast_history@ == old(singleton).broadcast_history@,
{
    let slot = find_trace(&singleton.traces, request_id);
    match slot {
        Some(i) => {
            let mut entry = singleton.traces.remove(i);
            entry.trace.stop_time = Some(now_millis);
            singleton.traces.insert(i, entry);
            proof {
                assert(singleton.traces@ =~= old(singleton).traces@.update(
                    i as int,
                    singleton.traces@[i as int],
                ));
            }
        },
        None => (),
    }
}

impl Default for TraceRequest {
    /// A fresh probe: zero hops, a randomly drawn request id.
    fn default() -> (r: Self)
        ensures
            r.hop_count == 0,
    {
        TraceRequest { hop_count: 0, request_id: fresh_request_id() }
    }
}

impl TraceRequest {
    /// A fresh probe under a caller-chosen request id.
    pub fn new(request_id: String) -> (r: Self)
        ensures
            r.hop_count == 0,
            r.request_id == request_id,
    {
        TraceRequest { hop_count: 0, request_id }
    }

    /// A transit hop: bump the hop count and report this node, outbound.
    pub fn process(&mut self, singleton: &Singleton, now_millis: u64) -> (r: TraceEvent)
        requires
            old(self).hop_count < usize::MAX,
        ensures
            final(self).hop_count == old(self).hop_count + 1,
            final(self).request_id == old(self).request_id,
            r == (TraceEvent {
                hop_count: final(self).hop_count,
                request_id: old(self).request_id,
                local_time: now_millis,
                id: singleton.configuration.id,
                direction: Direction::Outbound,
            }),
    {
        self.hop_count = self.hop_count + 1;
        TraceEvent {
            hop_count: self.hop_count,
            request_id: self.request_id.clone(),
            local_time: now_millis,
            id: singleton.configuration.id.clone(),
            direction: Direction::Outbound,
        }
    }
}

impl TraceResponse {
    /// The terminal reply to a probe: same id, same hop count.
    pub fn from(trace_request: TraceRequest) -> (r: Self)
        ensures
            r.hop_count == trace_request.hop_count,
            r.request_id == trace_request.request_id,
    {
        TraceResponse { hop_count: trace_request.hop_count, request_id: trace_request.request_id }
    }

    /// A reply-path hop: bump the hop count and report this node, inbound.
    pub fn process(&mut self, singleton: &Singleton, now_millis: u64) -> (r: TraceEvent)
        requires
            old(self).hop_count < usize::MAX,
        ensures
            final(self).hop_count == old(self).hop_count + 1,
            final(self).request_id == old(self).request_id,
            r == (TraceEvent {
                hop_count: final(self).hop_count,
                request_id: old(self).request_id,
                local_time: now_millis,
                id: singleton.configuration.id,
                direction: Direction::Inbound,
            }),
    {
        self.hop_count = self.hop_count + 1;
        TraceEvent {
            hop_count: self.hop_count,
            request_id: self.request_id.clone(),
            local_time: now_millis,
            id: singleton.configuration.id.clone(),
            direction: Direction::Inbound,
        }
    }
}

} // verus!
