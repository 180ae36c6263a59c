use vstd::prelude::*;

use crate::state::fresh_request_id;
use crate::state::Singleton;

verus! {

/// The payload of a mesh-wide broadcast.
#[derive(PartialEq, Eq, Structural, Clone, Copy, Debug)]
pub enum BroadcastMessage {
    Ping,
    Pong,
}

/// A flood request: `origin_id` is the collector to answer to (absent for
/// fire-and-forget), `request_id` the dedup key.
pub struct BroadcastRequest {
    pub origin_id: Option<String>,
    pub request_id: String,
    pub broadcast_message: BroadcastMessage,
}

/// One node's answer to a broadcast.
pub struct BroadcastResponse {
    pub request_id: String,
    pub broadcast: BroadcastMessage,
    pub local_time: u64,
}

/// A collected answer, keyed by the id of the node that sent it.
pub struct BroadcastResponseEntry {
    pub origin_id: String,
    pub response: BroadcastResponse,
}

/// A broadcast in flight: its request and the answers gathered so far,
/// at most one per responding node.
pub struct Broadcast {
    pub request: BroadcastRequest,
    pub responses: Vec<BroadcastResponseEntry>,
}

/// A stored broadcast with its key.
pub struct BroadcastEntry {
    pub request_id: String,
    pub broadcast: Broadcast,
}

/// One remembered broadcast id with the wall time it was first seen, for
/// dedup and aging.
pub struct HistoryEntry {
    pub request_id: String,
    pub time: u64,
}

impl BroadcastRequest {
    /// Deep equality, strings compared by contents.
    pub open spec fn eqv(self, o: BroadcastRequest) -> bool {
        &&& crate::seq_util::opt_str_eqv(self.origin_id, o.origin_id)
        &&& self.request_id@ == o.request_id@
        &&& self.broadcast_message == o.broadcast_message
    }
}

impl BroadcastResponse {
    /// Deep equality, strings compared by contents.
    pub open spec fn eqv(self, o: BroadcastResponse) -> bool {
        self.request_id@ == o.request_id@ && self.broadcast == o.broadcast && self.local_time
            == o.local_time
    }
}

impl BroadcastResponseEntry {
    /// Deep equality, strings compared by contents.
    pub open spec fn eqv(self, o: BroadcastResponseEntry) -> bool {
        self.origin_id@ == o.origin_id@ && self.response.eqv(o.response)
    }
}

/// Deep equality of collected-answer sequences, elementwise.
pub open spec fn broadcast_response_seq_eqv(
    a: Seq<BroadcastResponseEntry>,
    b: Seq<BroadcastResponseEntry>,
) -> bool {
    a.len() == b.len() && forall|i: int| 0 <= i < a.len() ==> #[trigger] a[i].eqv(b[i])
}

impl Broadcast {
    /// Deep equality, strings compared by contents.
    pub open spec fn eqv(self, o: Broadcast) -> bool {
        self.request.eqv(o.request) && broadcast_response_seq_eqv(self.responses@, o.responses@)
    }
}

impl Clone for BroadcastRequest {
    fn clone(&self) -> (r: Self)
        ensures
            r == *self,
    {
        BroadcastRequest {
            origin_id: match &self.origin_id {
                Some(s) => Some(s.clone()),
                None => None,
            },
            request_id: self.request_id.clone(),
            broadcast_message: self.broadcast_message,
        }
    }
}

impl Clone for BroadcastResponse {
    fn clone(&self) -> (r: Self)
        ensures
            r == *self,
    {
        BroadcastResponse {
            request_id: self.request_id.clone(),
            broadcast: self.broadcast,
            local_time: self.local_time,
        }
    }
}

impl Clone for BroadcastResponseEntry {
    fn clone(&self) -> (r: Self)
        ensures
            r == *self,
    {
        BroadcastResponseEntry { origin_id: self.origin_id.clone(), response: self.response.clone() }
    }
}

impl Clone for Broadcast {
    fn clone(&self) -> (r: Self)
        ensures
            r.request == self.request,
            r.responses@ == self.responses@,
    {
        let mut responses: Vec<BroadcastResponseEntry> = Vec::new();
        let mut i: usize = 0;
        while i < self.responses.len()
            invariant
                0 <= i <= self.responses.len(),
                responses@ =~= self.responses@.take(i as int),
            decreases self.responses.len() - i,
        {
            responses.push(self.responses[i].clone());
            proof {
                assert(responses@ =~= self.responses@.take(i + 1 as int));
            }
            i = i + 1;
        }
        proof {
            assert(responses@ =~= self.responses@);
        }
        Broadcast { request: self.request.clone(), responses }
    }
}

impl Broadcast {
    /// A new broadcast of `broadcast_message`: the given request id, or a
    /// randomly drawn one when absent; no answers yet.
    pub fn new(
        broadcast_message: BroadcastMessage,
        request_id: Option<String>,
        origin_id: Option<String>,
    ) -> (r: Broadcast)
        ensures
            r.request.broadcast_message == broadcast_message,
            r.request.origin_id == origin_id,
            request_id matches Some(id) ==> r.request.request_id == id,
            r.responses@ =~= Seq::<BroadcastResponseEntry>::empty(),
    {
        let request_id = match request_id {
            Some(id) => id,
            None => fresh_request_id(),
        };
        Broadcast {
            request: BroadcastRequest { origin_id, request_id, broadcast_message },
            responses: Vec::new(),
        }
    }
}

/// A collected-answer list is deeply equal to itself.
pub proof fn lemma_broadcast_responses_eqv_refl(a: Seq<BroadcastResponseEntry>)
    ensures
        broadcast_response_seq_eqv(a, a),
{
    assert forall|i: int| 0 <= i < a.len() implies #[trigger] a[i].eqv(a[i]) by {}
}

/// The first history entry for `rid`, scanning from `i`.
pub open spec fn find_history_from(s: Seq<HistoryEntry>, rid: Seq<char>, i: int) -> Option<int>
    decreases s.len() - i,
{
    if i < 0 || i >= s.len() {
        None
    } else if s[i].request_id@ == rid {
        Some(i)
    } else {
        find_history_from(s, rid, i + 1)
    }
}

/// True when a broadcast with id `rid` was already seen.
pub open spec fn history_contains(s: Seq<HistoryEntry>, rid: Seq<char>) -> bool {
    find_history_from(s, rid, 0) is Some
}

/// The first stored broadcast under `rid`, scanning from `i`.
pub open spec fn find_broadcast_from(s: Seq<BroadcastEntry>, rid: Seq<char>, i: int) -> Option<int>
    decreases s.len() - i,
{
    if i < 0 || i >= s.len() {
        None
    } else if s[i].request_id@ == rid {
        Some(i)
    } else {
        find_broadcast_from(s, rid, i + 1)
    }
}

/// The first collected answer from `origin`, scanning from `i`.
pub open spec fn find_response_from(
    s: Seq<BroadcastResponseEntry>,
    origin: Seq<char>,
    i: int,
) -> Option<int>
    decreases s.len() - i,
{
    if i < 0 || i >= s.len() {
        None
    } else if s[i].origin_id@ == origin {
        Some(i)
    } else {
        find_response_from(s, origin, i + 1)
    }
}

/// True when the history entry stamped at `t` is still fresh at `now`:
/// not from the future, and no older than `expiration` milliseconds.
pub open spec fn history_fresh(t: u64, now: u64, expiration: u64) -> bool {
    t <= now && now - t <= expiration
}

/// Age the broadcast history: drop every entry older than
/// `broadcastexpiration` milliseconds at `now_millis`, and every entry
/// stamped in the future.
pub fn poll_broadcasts(singleton: &mut Singleton, now_millis: u64)
    ensures
        final(singleton).broadcast_history@ == crate::seq_util::filter_map(
            old(singleton).broadcast_history@,
            |e: HistoryEntry|
                history_fresh(e.time, now_millis, old(singleton).configuration.broadcastexpiration),
            |e: HistoryEntry| e,
        ),
        final(singleton).configuration == old(singleton).configuration,
        final(singleton).peers@ == old(singleton).peers@,
        final(singleton).routes@ == old(singleton).routes@,
        final(singleton).backlog@ == old(singleton).backlog@,
        final(singleton).tickets@ == old(singleton).tickets@,
        final(singleton).traces@ == old(singleton).traces@,
        final(singleton).broadcasts@ == old(singleton).broadcasts@,
{
    let expiration = singleton.configuration.broadcastexpiration;
    let ghost history0 = singleton.broadcast_history@;
    let ghost keep = |e: HistoryEntry| history_fresh(e.time, now_millis, expiration);
    let ghost fid = |e: HistoryEntry| e;
    let mut kept: Vec<HistoryEntry> = Vec::new();
    let mut i: usize = 0;
    while i < singleton.broadcast_history.len()
        invariant
            0 <= i <= singleton.broadcast_history.len(),
            *singleton == *old(singleton),
            expiration == singleton.configuration.broadcastexpiration,
            history0 == singleton.broadcast_history@,
            keep == (|e: HistoryEntry| history_fresh(e.time, now_millis, expiration)),
            fid == (|e: HistoryEntry| e),
            kept@ == crate::seq_util::filter_map(history0.take(i as int), keep, fid),
        decreases singleton.broadcast_history.len() - i,
    {
        proof {
            crate::seq_util::lemma_filter_map_take_step(history0, keep, fid, i as int);
        }
        let e = &singleton.broadcast_history[i];
        if e.time <= now_millis && now_millis - e.time <= expiration {
            let copy = HistoryEntry { request_id: e.request_id.clone(), time: e.time };
            kept.push(copy);
        }
        proof {
            assert(kept@ =~= crate::seq_util::filter_map(
                history0.take(i + 1 as int),
                keep,
                fid,
            ));
        }
        i = i + 1;
    }
    proof {
        assert(history0.take(history0.len() as int) =~= history0);
    }
    singleton.broadcast_history = kept;
}

/// What a broadcast payload is answered with locally: a ping earns a
/// pong, a pong earns nothing.
pub open spec fn spec_broadcast_answer(m: BroadcastMessage) -> Option<BroadcastMessage> {
    match m {
        BroadcastMessage::Ping => Some(BroadcastMessage::Pong),
        BroadcastMessage::Pong => None,
    }
}

/// Answer a broadcast payload locally.
pub fn process_broadcast_message(broadcast_message: BroadcastMessage) -> (r: Option<
    BroadcastMessage,
>)
    ensures
        r == spec_broadcast_answer(broadcast_message),
{
    match broadcast_message {
        BroadcastMessage::Ping => Some(BroadcastMessage::Pong),
        BroadcastMessage::Pong => None,
    }
}

/// The gateways of the route table, first occurrence of each.
pub open spec fn unique_gateways(routes: Seq<crate::routing::Route>) -> Seq<String>
    decreases routes.len(),
{
    if routes.len() == 0 {
        Seq::empty()
    } else {
        let rest = unique_gateways(routes.drop_last());
        if exists|k: int| 0 <= k < rest.len() && (#[trigger] rest[k])@ == routes.last().gateway_id@ {
            rest
        } else {
            rest.push(routes.last().gateway_id)
        }
    }
}

/// True when `mc` carries exactly one message `m`, addressed from
/// `local` to `target`.
pub open spec fn is_single_message(
    mc: crate::message::MessageCollection,
    m: crate::message::Message,
    local: String,
    target: Option<String>,
) -> bool {
    &&& mc.origin_id == local
    &&& mc.destination_id == target
    &&& mc.messages@.len() == 1
    &&& mc.messages@[0] == m
}

/// Handle an incoming flood request.  A request whose id is already in
/// the history changes nothing.  A first-seen request is remembered at
/// `now_millis`, re-queued toward every gateway of the route table (first
/// occurrence of each), and — when the payload earns an answer and the
/// request names a collector — answered toward that collector.
pub fn process_broadcast_request(
    singleton: &mut Singleton,
    broadcast_request: BroadcastRequest,
    now_millis: u64,
)
    ensures
        history_contains(old(singleton).broadcast_history@, broadcast_request.request_id@)
            ==> *final(singleton) == *old(singleton),
        !history_contains(old(singleton).broadcast_history@, broadcast_request.request_id@) ==> ({
            let gws = unique_gateways(old(singleton).routes@);
            let answered = (spec_broadcast_answer(broadcast_request.broadcast_message) is Some)
                && (broadcast_request.origin_id is Some);
            let forwards = gws.len() as int;
            &&& final(singleton).broadcast_history@ == old(singleton).broadcast_history@.push(
                HistoryEntry { request_id: broadcast_request.request_id, time: now_millis },
            )
            &&& final(singleton).backlog@.len() == old(singleton).backlog@.len() + forwards + (
            if answered {
                1int
            } else {
                0int
            })
            &&& final(singleton).backlog@.take(old(singleton).backlog@.len() as int) == old(
                singleton,
            ).backlog@
            &&& forall|k: int|
                0 <= k < forwards ==> is_single_message(
                    #[trigger] final(singleton).backlog@[old(singleton).backlog@.len() + k],
                    crate::message::Message::BroadcastRequest(broadcast_request),
                    old(singleton).configuration.id,
                    Some(gws[k]),
                )
            &&& answered ==> ({
                let resp = BroadcastResponse {
                    request_id: broadcast_request.request_id,
                    broadcast: spec_broadcast_answer(broadcast_request.broadcast_message).unwrap(),
                    local_time: now_millis,
                };
                is_single_message(
                    final(singleton).backlog@.last(),
                    crate::message::Message::BroadcastResponse(resp),
                    old(singleton).configuration.id,
                    broadcast_request.origin_id,
                )
            })
        }),
        final(singleton).configuration == old(singleton).configuration,
        final(singleton).peers@ == old(singleton).peers@,
        final(singleton).routes@ == old(singleton).routes@,
        final(singleton).tickets@ == old(singleton).tickets@,
        final(singleton).traces@ == old(singleton).traces@,
        final(singleton).broadcasts@ == old(singleton).broadcasts@,
{
    let ghost history0 = singleton.broadcast_history@;
    let mut seen = false;
    let mut i: usize = 0;
    while i < singleton.broadcast_history.len()
        invariant
            0 <= i <= singleton.broadcast_history.len(),
            *singleton == *old(singleton),
            history0 == singleton.broadcast_history@,
            seen ==> history_contains(history0, broadcast_request.request_id@),
            !seen ==> find_history_from(history0, broadcast_request.request_id@, i as int)
                == find_history_from(history0, broadcast_request.request_id@, 0),
        decreases singleton.broadcast_history.len() - i,
    {
        if singleton.broadcast_history[i].request_id == broadcast_request.request_id {
            seen = true;
        }
        i = i + 1;
    }
    if seen {
        return ;
    }
    let entry = HistoryEntry { request_id: broadcast_request.request_id.clone(), time: now_millis };
    singleton.broadcast_history.push(entry);

    let gateways = collect_unique_gateways(&singleton.routes);
    let ghost gws = unique_gateways(singleton.routes@);
    let ghost backlog1 = singleton.backlog@;
    let mut k: usize = 0;
    while k < gateways.len()
        invariant
            0 <= k <= gateways.len(),
            singleton.configuration == old(singleton).configuration,
            singleton.peers@ == old(singleton).peers@,
            singleton.routes@ == old(singleton).routes@,
            singleton.tickets@ == old(singleton).tickets@,
            singleton.traces@ == old(singleton).traces@,
            singleton.broadcasts@ == old(singleton).broadcasts@,
            singleton.broadcast_history@ == old(singleton).broadcast_history@.push(
                HistoryEntry { request_id: broadcast_request.request_id, time: now_millis },
            ),
            gateways@ == gws,
            gws == unique_gateways(singleton.routes@),
            backlog1 == old(singleton).backlog@,
            singleton.backlog@.len() == backlog1.len() + k,
            singleton.backlog@.take(backlog1.len() as int) == backlog1,
            forall|j: int|
                0 <= j < k ==> is_single_message(
                    #[trigger] singleton.backlog@[backlog1.len() + j],
                    crate::message::Message::BroadcastRequest(broadcast_request),
                    singleton.configuration.id,
                    Some(gws[j]),
                ),
        decreases gateways.len() - k,
    {
        let mc = crate::message::MessageCollection {
            messages: vec![
                crate::message::Message::BroadcastRequest(broadcast_request.clone()),
            ],
            origin_id: singleton.configuration.id.clone(),
            destination_id: Some(gateways[k].clone()),
        };
        proof {
            assert(mc.messages@[0] == crate::message::Message::BroadcastRequest(
                broadcast_request,
            ));
        }
        singleton.backlog.push(mc);
        proof {
            assert(singleton.backlog@.take(backlog1.len() as int) =~= backlog1);
        }
        k = k + 1;
    }

    let answer = process_broadcast_message(broadcast_request.broadcast_message);
    match (answer, &broadcast_request.origin_id) {
        (Some(broadcast), Some(destination_id)) => {
            let response = BroadcastResponse {
                request_id: broadcast_request.request_id.clone(),
                broadcast,
                local_time: now_millis,
            };
            let mc = crate::message::MessageCollection {
                messages: vec![crate::message::Message::BroadcastResponse(response)],
                origin_id: singleton.configuration.id.clone(),
                destination_id: Some(destination_id.clone()),
            };
            singleton.backlog.push(mc);
            proof {
                assert(singleton.backlog@.take(backlog1.len() as int) =~= backlog1);
            }
        },
        _ => (),
    }
}

/// The gateways of the route table, in first-occurrence order.
fn collect_unique_gateways(routes: &Vec<crate::routing::Route>) -> (r: Vec<String>)
    ensures
        r@ == unique_gateways(routes@),
{
    let mut out: Vec<String> = Vec::new();
    let mut i: usize = 0;
    while i < routes.len()
        invariant
            0 <= i <= routes.len(),
            out@ == unique_gateways(routes@.take(i as int)),
        decreases routes.len() - i,
    {
        proof {
            assert(routes@.take(i + 1 as int).drop_last() =~= routes@.take(i as int));
            assert(routes@.take(i + 1 as int).last() == routes@[i as int]);
        }
        let mut dup = false;
        let mut j: usize = 0;
        while j < out.len()
            invariant
                0 <= j <= out.len(),
                i < routes.len(),
                dup ==> exists|k: int|
                    0 <= k < out@.len() && (#[trigger] out@[k])@ == routes@[i as int].gateway_id@,
                !dup ==> forall|k: int|
                    0 <= k < j ==> (#[trigger] out@[k])@ != routes@[i as int].gateway_id@,
            decreases out.len() - j,
        {
            if out[j] == routes[i].gateway_id {
                dup = true;
            }
            j = j + 1;
        }
        if !dup {
            out.push(routes[i].gateway_id.clone());
        }
        i = i + 1;
    }
    proof {
        assert(routes@.take(routes@.len() as int) =~= routes@);
    }
    out
}

/// Store a collected answer under its broadcast, keyed by the id of the
/// node that sent it, overwriting an earlier answer from the same node; an
/// answer for an unknown broadcast is dropped.
pub fn process_broadcast_response(
    singleton: &mut Singleton,
    broadcast_response: BroadcastResponse,
    origin_id: String,
)
    ensures
        ({
            let b0 = old(singleton).broadcasts@;
            let b1 = final(singleton).broadcasts@;
            match find_broadcast_from(b0, broadcast_response.request_id@, 0) {
                None => b1 == b0,
                Some(i) => {
                    &&& b1.len() == b0.len()
                    &&& forall|k: int| 0 <= k < b0.len() && k != i ==> b1[k] == b0[k]
                    &&& b1[i].request_id == b0[i].request_id
                    &&& b1[i].broadcast.request == b0[i].broadcast.request
                    &&& ({
                        let entry = BroadcastResponseEntry { origin_id, response: broadcast_response };
                        match find_response_from(b0[i].broadcast.responses@, origin_id@, 0) {
                            None => b1[i].broadcast.responses@ == b0[i].broadcast.responses@.push(
                                entry,
                            ),
                            Some(j) => b1[i].broadcast.responses@
                                == b0[i].broadcast.responses@.update(j, entry),
                        }
                    })
                },
            }
        }),
        final(singleton).configuration == old(singleton).configuration,
        final(singleton).peers@ == old(singleton).peers@,
        final(singleton).routes@ == old(singleton).routes@,
        final(singleton).backlog@ == old(singleton).backlog@,
        final(singleton).tickets@ == old(singleton).tickets@,
        final(singleton).traces@ == old(singleton).traces@,
        final(singleton).broadcast_history@ == old(singleton).broadcast_history@,
{
    let slot = find_broadcast(&singleton.broadcasts, &broadcast_response.request_id);
    match slot {
        Some(i) => {
            let mut entry = singleton.broadcasts.remove(i);
            let rslot = find_response(&entry.broadcast.responses, &origin_id);
            let new_entry = BroadcastResponseEntry { origin_id, response: broadcast_response };
            match rslot {
                Some(j) => {
                    entry.broadcast.responses.remove(j);
                    entry.broadcast.responses.insert(j, new_entry);
                    proof {
                        assert(entry.broadcast.responses@ =~= old(
                            singleton,
                        ).broadcasts@[i as int].broadcast.responses@.update(
                            j as int,
                            entry.broadcast.responses@[j as int],
                        ));
                    }
                },
                None => {
                    entry.broadcast.responses.push(new_entry);
                },
            }
            singleton.broadcasts.insert(i, entry);
            proof {
                assert(singleton.broadcasts@ =~= old(singleton).broadcasts@.update(
                    i as int,
                    singleton.broadcasts@[i as int],
                ));
            }
        },
        None => (),
    }
}

/// The index of the stored broadcast under `rid`, if one exists.
pub fn find_broadcast(broadcasts: &Vec<BroadcastEntry>, rid: &String) -> (r: Option<usize>)
    ensures
        match r {
            Some(i) => i < broadcasts@.len() && find_broadcast_from(broadcasts@, rid@, 0) == Some(
                i as int,
            ),
            None => find_broadcast_from(broadcasts@, rid@, 0) is None,
        },
{
    let mut i: usize = 0;
    while i < broadcasts.len()
        invariant
            0 <= i <= broadcasts.len(),
            find_broadcast_from(broadcasts@, rid@, i as int) == find_broadcast_from(
                broadcasts@,
                rid@,
                0,
            ),
        decreases broadcasts.len() - i,
    {
        if broadcasts[i].request_id == *rid {
            return Some(i);
        }
        i = i + 1;
    }
    None
}

/// The index of the collected answer from `origin`, if one exists.
fn find_response(responses: &Vec<BroadcastResponseEntry>, origin: &String) -> (r: Option<usize>)
    ensures
        match r {
            Some(i) => i < responses@.len() && find_response_from(responses@, origin@, 0) == Some(
                i as int,
            ),
            None => find_response_from(responses@, origin@, 0) is None,
        },
{
    let mut i: usize = 0;
    while i < responses.len()
        invariant
            0 <= i <= responses.len(),
            find_response_from(responses@, origin@, i as int) == find_response_from(
                responses@,
                origin@,
                0,
            ),
        decreases responses.len() - i,
    {
        if responses[i].origin_id == *origin {
            return Some(i);
        }
        i = i + 1;
    }
    None
}

} // verus!
