use vstd::prelude::*;

use crate::message::Message;
use crate::message::MessageCollection;
use crate::peering::Peer;
use crate::routing::resolve_gateway_on;
use crate::routing::spec_resolved_gateway;
use crate::seq_util::filter_map;
use crate::seq_util::lemma_filter_map_take_step;
use crate::state::Singleton;

verus! {

/// A request to hand over the queued batches this node is the next hop
/// for; `gateway_id` is the requester's id.
pub struct BacklogRequest {
    pub gateway_id: String,
}

/// The batches handed over for a backlog pull.
pub struct BacklogResponse {
    pub message_collections: Vec<MessageCollection>,
}

impl Clone for BacklogRequest {
    fn clone(&self) -> (r: Self)
        ensures
            r == *self,
    {
        BacklogRequest { gateway_id: self.gateway_id.clone() }
    }
}

/// Queue a batch for later dispatch.  An empty batch is dropped: queuing
/// it is a no-op.
pub fn push_message_collection_to_backlog(
    message_collection: MessageCollection,
    singleton: &mut Singleton,
)
    ensures
        message_collection.messages@.len() == 0 ==> *final(singleton) == *old(singleton),
        message_collection.messages@.len() > 0 ==> final(singleton).backlog@ == old(
            singleton,
        ).backlog@.push(message_collection),
        final(singleton).configuration == old(singleton).configuration,
        final(singleton).peers@ == old(singleton).peers@,
        final(singleton).routes@ == old(singleton).routes@,
        final(singleton).tickets@ == old(singleton).tickets@,
        final(singleton).traces@ == old(singleton).traces@,
        final(singleton).broadcasts@ == old(singleton).broadcasts@,
        final(singleton).broadcast_history@ == old(singleton).broadcast_history@,
{
    if message_collection.messages.len() > 0 {
        singleton.backlog.push(message_collection);
    }
}

/// True of a peer row this node polls: flagged for polling and dialable.
pub open spec fn polled_peer(p: Peer) -> bool {
    p.polling && p.url is Some
}

/// True when `mc` is a backlog pull: a single `BacklogRequest` naming
/// this node, addressed from `local` to `target`.
pub open spec fn is_backlog_poll(mc: MessageCollection, local: String, target: Option<String>) -> bool {
    &&& mc.origin_id == local
    &&& mc.destination_id == target
    &&& mc.messages@.len() == 1
    &&& mc.messages@[0] matches Message::BacklogRequest(b) && b.gateway_id == local
}

/// Queue one `BacklogRequest` toward every polled peer, addressed to its
/// learned id.
pub fn poll_backlogs(singleton: &mut Singleton)
    ensures
        final(singleton).backlog@.len() == old(singleton).backlog@.len() + filter_map(
            old(singleton).peers@,
            |p: Peer| polled_peer(p),
            |p: Peer| p.id,
        ).len(),
        final(singleton).backlog@.take(old(singleton).backlog@.len() as int) == old(
            singleton,
        ).backlog@,
        forall|k: int|
            0 <= k < filter_map(
                old(singleton).peers@,
                |p: Peer| polled_peer(p),
                |p: Peer| p.id,
            ).len() ==> is_backlog_poll(
                #[trigger] final(singleton).backlog@[old(singleton).backlog@.len() + k],
                old(singleton).configuration.id,
                filter_map(old(singleton).peers@, |p: Peer| polled_peer(p), |p: Peer| p.id)[k],
            ),
        final(singleton).configuration == old(singleton).configuration,
        final(singleton).peers@ == old(singleton).peers@,
        final(singleton).routes@ == old(singleton).routes@,
        final(singleton).tickets@ == old(singleton).tickets@,
        final(singleton).traces@ == old(singleton).traces@,
        final(singleton).broadcasts@ == old(singleton).broadcasts@,
        final(singleton).broadcast_history@ == old(singleton).broadcast_history@,
{
    let ghost keep = |p: Peer| polled_peer(p);
    let ghost f = |p: Peer| p.id;
    let ghost peers0 = singleton.peers@;
    let ghost backlog0 = singleton.backlog@;
    let mut i: usize = 0;
    while i < singleton.peers.len()
        invariant
            0 <= i <= singleton.peers.len(),
            singleton.configuration == old(singleton).configuration,
            singleton.peers@ == old(singleton).peers@,
            singleton.routes@ == old(singleton).routes@,
            singleton.tickets@ == old(singleton).tickets@,
            singleton.traces@ == old(singleton).traces@,
            singleton.broadcasts@ == old(singleton).broadcasts@,
            singleton.broadcast_history@ == old(singleton).broadcast_history@,
            keep == (|p: Peer| polled_peer(p)),
            f == (|p: Peer| p.id),
            peers0 == singleton.peers@,
            backlog0 == old(singleton).backlog@,
            singleton.backlog@.len() == backlog0.len() + filter_map(
                peers0.take(i as int),
                keep,
                f,
            ).len(),
            singleton.backlog@.take(backlog0.len() as int) == backlog0,
            forall|k: int|
                0 <= k < filter_map(peers0.take(i as int), keep, f).len() ==> is_backlog_poll(
                    #[trigger] singleton.backlog@[backlog0.len() + k],
                    singleton.configuration.id,
                    filter_map(peers0.take(i as int), keep, f)[k],
                ),
        decreases singleton.peers.len() - i,
    {
        proof {
            lemma_filter_map_take_step(peers0, keep, f, i as int);
        }
        let p = &singleton.peers[i];
        let has_url = match &p.url {
            Some(_) => true,
            None => false,
        };
        if p.polling && has_url {
            let request = BacklogRequest { gateway_id: singleton.configuration.id.clone() };
            let mc = MessageCollection {
                messages: vec![Message::BacklogRequest(request)],
                origin_id: singleton.configuration.id.clone(),
                destination_id: match &p.id {
                    Some(s) => Some(s.clone()),
                    None => None,
                },
            };
            proof {
                assert(mc.messages@[0] matches Message::BacklogRequest(b) && b.gateway_id
                    == singleton.configuration.id);
            }
            singleton.backlog.push(mc);
            proof {
                assert(singleton.backlog@.take(backlog0.len() as int) =~= backlog0);
            }
        }
        i = i + 1;
    }
    proof {
        assert(peers0.take(peers0.len() as int) =~= peers0);
    }
}

/// The destination a queued batch is resolved against: its explicit
/// destination, or this node when it has none.
pub open spec fn effective_destination(mc: MessageCollection, local: Seq<char>) -> Seq<char> {
    match mc.destination_id {
        Some(d) => d@,
        None => local,
    }
}

/// True when a queued batch resolves to the gateway `gw` on `routes`.
pub open spec fn pulled_by(routes: Seq<crate::routing::Route>, local: Seq<char>, gw: Seq<char>) -> spec_fn(
    MessageCollection,
) -> bool {
    |mc: MessageCollection| spec_resolved_gateway(routes, effective_destination(mc, local)) == Some(
        gw,
    )
}

/// Serve a backlog pull from the peer `backlog_request.gateway_id`: hand
/// over, in order, exactly the queued batches whose destination resolves
/// to that peer, and keep the rest in order.
pub fn request_backlog(singleton: &mut Singleton, backlog_request: BacklogRequest) -> (r:
    BacklogResponse)
    ensures
        r.message_collections@ == filter_map(
            old(singleton).backlog@,
            pulled_by(
                old(singleton).routes@,
                old(singleton).configuration.id@,
                backlog_request.gateway_id@,
            ),
            |mc: MessageCollection| mc,
        ),
        final(singleton).backlog@ == filter_map(
            old(singleton).backlog@,
            |mc: MessageCollection|
                !(pulled_by(
                    old(singleton).routes@,
                    old(singleton).configuration.id@,
                    backlog_request.gateway_id@,
                ))(mc),
            |mc: MessageCollection| mc,
        ),
        final(singleton).configuration == old(singleton).configuration,
        final(singleton).peers@ == old(singleton).peers@,
        final(singleton).routes@ == old(singleton).routes@,
        final(singleton).tickets@ == old(singleton).tickets@,
        final(singleton).traces@ == old(singleton).traces@,
        final(singleton).broadcasts@ == old(singleton).broadcasts@,
        final(singleton).broadcast_history@ == old(singleton).broadcast_history@,
{
    let ghost local = singleton.configuration.id@;
    let ghost gw = backlog_request.gateway_id@;
    let ghost routes0 = singleton.routes@;
    let ghost backlog0 = singleton.backlog@;
    let ghost pulls = pulled_by(routes0, local, gw);
    let ghost keeps = |mc: MessageCollection| !(pulled_by(routes0, local, gw))(mc);
    let ghost fid = |mc: MessageCollection| mc;

    let mut kept: Vec<MessageCollection> = Vec::new();
    let mut given: Vec<MessageCollection> = Vec::new();
    let ghost mut seen: int = 0;
    while singleton.backlog.len() > 0
        invariant
            0 <= seen <= backlog0.len(),
            singleton.configuration == old(singleton).configuration,
            singleton.peers@ == old(singleton).peers@,
            singleton.routes@ == old(singleton).routes@,
            singleton.tickets@ == old(singleton).tickets@,
            singleton.traces@ == old(singleton).traces@,
            singleton.broadcasts@ == old(singleton).broadcasts@,
            singleton.broadcast_history@ == old(singleton).broadcast_history@,
            local == singleton.configuration.id@,
            gw == backlog_request.gateway_id@,
            routes0 == singleton.routes@,
            backlog0 == old(singleton).backlog@,
            pulls == pulled_by(routes0, local, gw),
            keeps == (|mc: MessageCollection| !(pulled_by(routes0, local, gw))(mc)),
            fid == (|mc: MessageCollection| mc),
            singleton.backlog@ == backlog0.skip(seen),
            given@ == filter_map(backlog0.take(seen), pulls, fid),
            kept@ == filter_map(backlog0.take(seen), keeps, fid),
        decreases singleton.backlog.len(),
    {
        proof {
            lemma_filter_map_take_step(backlog0, pulls, fid, seen);
            lemma_filter_map_take_step(backlog0, keeps, fid, seen);
            assert(singleton.backlog@[0] == backlog0[seen]);
        }
        let mc = singleton.backlog.remove(0);
        let destination_ref: &String = match &mc.destination_id {
            Some(d) => d,
            None => &singleton.configuration.id,
        };
        let resolved = resolve_gateway_on(&singleton.routes, destination_ref);
        let pulled = match resolved {
            Some(g) => g == backlog_request.gateway_id,
            None => false,
        };
        proof {
            assert(destination_ref@ == effective_destination(mc, local));
            assert(pulled == pulls(mc));
        }
        if pulled {
            given.push(mc);
        } else {
            kept.push(mc);
        }
        proof {
            seen = seen + 1;
            assert(singleton.backlog@ =~= backlog0.skip(seen));
            assert(given@ =~= filter_map(backlog0.take(seen), pulls, fid));
            assert(kept@ =~= filter_map(backlog0.take(seen), keeps, fid));
        }
    }
    proof {
        assert(backlog0.take(seen) =~= backlog0);
    }
    singleton.backlog = kept;
    BacklogResponse { message_collections: given }
}

/// The condensation key and payload of a batch: where it goes, where it
/// came from, and what it carries.
pub open spec fn mc_model(mc: MessageCollection) -> (Option<Seq<char>>, Seq<char>, Seq<Message>) {
    (crate::seq_util::opt_str_view(mc.destination_id), mc.origin_id@, mc.messages@)
}

/// The models of a sequence of batches.
pub open spec fn mc_seq_model(s: Seq<MessageCollection>) -> Seq<
    (Option<Seq<char>>, Seq<char>, Seq<Message>),
> {
    Seq::new(s.len(), |k: int| mc_model(s[k]))
}

/// The first bucket with the given key, scanning from `i`.
pub open spec fn find_bucket(
    m: Seq<(Option<Seq<char>>, Seq<char>, Seq<Message>)>,
    key: (Option<Seq<char>>, Seq<char>),
    i: int,
) -> Option<int>
    decreases m.len() - i,
{
    if i < 0 || i >= m.len() {
        None
    } else if m[i].0 == key.0 && m[i].1 == key.1 {
        Some(i)
    } else {
        find_bucket(m, key, i + 1)
    }
}

/// One batch folded into the buckets: an empty batch vanishes, a batch
/// with a known (destination, origin) key appends its messages to that
/// bucket, and a new key opens a bucket at the end.
pub open spec fn bucket_add(
    m: Seq<(Option<Seq<char>>, Seq<char>, Seq<Message>)>,
    mc: MessageCollection,
) -> Seq<(Option<Seq<char>>, Seq<char>, Seq<Message>)> {
    if mc.messages@.len() == 0 {
        m
    } else {
        let key = (crate::seq_util::opt_str_view(mc.destination_id), mc.origin_id@);
        match find_bucket(m, key, 0) {
            None => m.push(mc_model(mc)),
            Some(i) => m.update(i, (m[i].0, m[i].1, m[i].2 + mc.messages@)),
        }
    }
}

/// The buckets formed by folding the batches in order.
pub open spec fn buckets_of(s: Seq<MessageCollection>) -> Seq<
    (Option<Seq<char>>, Seq<char>, Seq<Message>),
>
    decreases s.len(),
{
    if s.len() == 0 {
        Seq::empty()
    } else {
        bucket_add(buckets_of(s.drop_last()), s.last())
    }
}

/// Drain the backlog and condense it: group the queued batches by
/// (destination, origin) in the order popped — last queued first — and
/// concatenate the message lists of each group.  The condensed batches
/// come back for dispatch; the backlog is left empty.
pub fn process_backlog(singleton: &mut Singleton) -> (r: Vec<MessageCollection>)
    ensures
        final(singleton).backlog@.len() == 0,
        mc_seq_model(r@) == buckets_of(old(singleton).backlog@.reverse()),
        final(singleton).configuration == old(singleton).configuration,
        final(singleton).peers@ == old(singleton).peers@,
        final(singleton).routes@ == old(singleton).routes@,
        final(singleton).tickets@ == old(singleton).tickets@,
        final(singleton).traces@ == old(singleton).traces@,
        final(singleton).broadcasts@ == old(singleton).broadcasts@,
        final(singleton).broadcast_history@ == old(singleton).broadcast_history@,
{
    let ghost backlog0 = singleton.backlog@;
    let mut out: Vec<MessageCollection> = Vec::new();
    while singleton.backlog.len() > 0
        invariant
            singleton.configuration == old(singleton).configuration,
            singleton.peers@ == old(singleton).peers@,
            singleton.routes@ == old(singleton).routes@,
            singleton.tickets@ == old(singleton).tickets@,
            singleton.traces@ == old(singleton).traces@,
            singleton.broadcasts@ == old(singleton).broadcasts@,
            singleton.broadcast_history@ == old(singleton).broadcast_history@,
            backlog0 == old(singleton).backlog@,
            singleton.backlog@.len() <= backlog0.len(),
            singleton.backlog@ == backlog0.take(singleton.backlog@.len() as int),
            mc_seq_model(out@) == buckets_of(
                backlog0.skip(singleton.backlog@.len() as int).reverse(),
            ),
        decreases singleton.backlog.len(),
    {
        let ghost remaining = singleton.backlog@.len() as int;
        let ghost processed = backlog0.skip(remaining).reverse();
        let mc = singleton.backlog.pop().unwrap();
        proof {
            assert(mc == backlog0[remaining - 1]);
            assert(singleton.backlog@ =~= backlog0.take(remaining - 1));
            assert(backlog0.skip(remaining - 1).reverse() =~= processed.push(mc));
            assert(processed.push(mc).drop_last() =~= processed);
            assert(processed.push(mc).last() == mc);
            assert(buckets_of(processed.push(mc)) == bucket_add(buckets_of(processed), mc));
        }
        if mc.messages.len() > 0 {
            let slot = find_bucket_index(&out, &mc.destination_id, &mc.origin_id);
            let mut mc = mc;
            let ghost mc0 = mc;
            match slot {
                Some(idx) => {
                    let mut bucket = out.remove(idx);
                    bucket.messages.append(&mut mc.messages);
                    out.insert(idx, bucket);
                    proof {
                        assert(mc_seq_model(out@) =~~= bucket_add(buckets_of(processed), mc0));
                    }
                },
                None => {
                    out.push(mc);
                    proof {
                        assert(mc_seq_model(out@) =~~= bucket_add(buckets_of(processed), mc0));
                    }
                },
            }
        }
        proof {
            assert(mc_seq_model(out@) =~~= buckets_of(
                backlog0.skip(singleton.backlog@.len() as int).reverse(),
            ));
        }
    }
    proof {
        assert(backlog0.skip(0) =~= backlog0);
        assert(singleton.backlog@.len() == 0);
    }
    out
}

/// The bucket among `out` that carries the `(destination_id, origin_id)`
/// key, if one does.
fn find_bucket_index(
    out: &Vec<MessageCollection>,
    destination_id: &Option<String>,
    origin_id: &String,
) -> (r: Option<usize>)
    ensures
        ({
            let key = (crate::seq_util::opt_str_view(*destination_id), origin_id@);
            match r {
                Some(idx) => idx < out@.len() && find_bucket(mc_seq_model(out@), key, 0) == Some(
                    idx as int,
                ),
                None => find_bucket(mc_seq_model(out@), key, 0) is None,
            }
        }),
{
    let ghost key = (crate::seq_util::opt_str_view(*destination_id), origin_id@);
    let mut idx: usize = 0;
    while idx < out.len()
        invariant
            0 <= idx <= out.len(),
            key == (crate::seq_util::opt_str_view(*destination_id), origin_id@),
            find_bucket(mc_seq_model(out@), key, idx as int) == find_bucket(
                mc_seq_model(out@),
                key,
                0,
            ),
        decreases out.len() - idx,
    {
        let key_matches = opt_str_eq(&out[idx].destination_id, destination_id) && out[idx].origin_id
            == *origin_id;
        proof {
            assert(mc_seq_model(out@)[idx as int] == mc_model(out@[idx as int]));
        }
        if key_matches {
            return Some(idx);
        }
        idx = idx + 1;
    }
    None
}

/// True when two optional strings hold the same contents.
pub fn opt_str_eq(a: &Option<String>, b: &Option<String>) -> (r: bool)
    ensures
        r == (crate::seq_util::opt_str_view(*a) == crate::seq_util::opt_str_view(*b)),
{
    match (a, b) {
        (None, None) => true,
        (Some(x), Some(y)) => *x == *y,
        _ => false,
    }
}

} // verus!
