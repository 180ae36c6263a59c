use vstd::prelude::*;

use crate::seq_util::filter_map;
use crate::seq_util::lemma_filter_map_take_step;
use crate::state::Singleton;

verus! {

/// One known neighbor.  `id` is learned from traffic and may be absent;
/// `url` is the transport endpoint and is absent for peers known only by
/// id; `polling` marks peers this node pulls batches from.
pub struct Peer {
    pub id: Option<String>,
    pub url: Option<String>,
    pub polling: bool,
}

/// A whole peer table, as carried inside peer queries.
pub struct PeerTable {
    pub peers: Vec<Peer>,
}

/// An operator query for the peer table; `None` asks, `Some` answers.
#[derive(Default)]
pub struct PeerQuery {
    pub peers: Option<Vec<Peer>>,
}

/// A peer row is meaningful only when it names an id or a url.
pub open spec fn peer_wf(p: Peer) -> bool {
    p.id is Some || p.url is Some
}

/// No stored peer row is empty.
pub open spec fn peers_wf(peers: Seq<Peer>) -> bool {
    forall|i: int| 0 <= i < peers.len() ==> peer_wf(#[trigger] peers[i])
}

/// True when the row's learned id is exactly `id`.
pub open spec fn peer_has_id(p: Peer, id: Seq<char>) -> bool {
    match p.id {
        Some(pid) => pid@ == id,
        None => false,
    }
}

/// True when the row's endpoint is exactly `url`.
pub open spec fn peer_has_url(p: Peer, url: Seq<char>) -> bool {
    match p.url {
        Some(u) => u@ == url,
        None => false,
    }
}

impl Clone for Peer {
    fn clone(&self) -> (r: Self)
        ensures
            r == *self,
    {
        Peer {
            id: match &self.id {
                Some(s) => Some(s.clone()),
                None => None,
            },
            url: match &self.url {
                Some(s) => Some(s.clone()),
                None => None,
            },
            polling: self.polling,
        }
    }
}

impl Peer {
    /// Deep equality, strings compared by contents.
    pub open spec fn eqv(self, o: Peer) -> bool {
        crate::seq_util::opt_str_eqv(self.id, o.id) && crate::seq_util::opt_str_eqv(
            self.url,
            o.url,
        ) && self.polling == o.polling
    }
}

/// Deep equality of peer sequences, elementwise.
pub open spec fn peer_seq_eqv(a: Seq<Peer>, b: Seq<Peer>) -> bool {
    a.len() == b.len() && forall|i: int| 0 <= i < a.len() ==> #[trigger] a[i].eqv(b[i])
}

impl PeerQuery {
    /// Deep equality, strings compared by contents.
    pub open spec fn eqv(self, o: PeerQuery) -> bool {
        match (self.peers, o.peers) {
            (None, None) => true,
            (Some(a), Some(b)) => peer_seq_eqv(a@, b@),
            _ => false,
        }
    }
}

impl Clone for PeerQuery {
    fn clone(&self) -> (r: Self)
        ensures
            self.eqv(r),
    {
        PeerQuery {
            peers: match &self.peers {
                Some(v) => {
                    let mut out: Vec<Peer> = Vec::new();
                    let mut i: usize = 0;
                    while i < v.len()
                        invariant
                            0 <= i <= v.len(),
                            out@ =~= v@.take(i as int),
                        decreases v.len() - i,
                    {
                        out.push(v[i].clone());
                        proof {
                            assert(out@ =~= v@.take(i + 1 as int));
                        }
                        i = i + 1;
                    }
                    proof {
                        assert(out@ =~= v@);
                    }
                    Some(out)
                },
                None => None,
            },
        }
    }
}

/// The configured rows that carry a url, each with its learned id cleared.
pub open spec fn initial_peer_rows(configured: Seq<Peer>) -> Seq<Peer> {
    filter_map(
        configured,
        |p: Peer| p.url is Some,
        |p: Peer| Peer { id: None, url: p.url, polling: p.polling },
    )
}

/// Populate the peer table from the configured peer entries that carry a
/// url.  Rows learned only by id cannot be dialed and are not seeded.
pub fn initialize_peers(singleton: &mut Singleton)
    ensures
        final(singleton).peers@ == old(singleton).peers@ + initial_peer_rows(
            old(singleton).configuration.peer@,
        ),
        final(singleton).configuration == old(singleton).configuration,
        final(singleton).routes@ == old(singleton).routes@,
        final(singleton).backlog@ == old(singleton).backlog@,
        final(singleton).tickets@ == old(singleton).tickets@,
        final(singleton).traces@ == old(singleton).traces@,
        final(singleton).broadcasts@ == old(singleton).broadcasts@,
        final(singleton).broadcast_history@ == old(singleton).broadcast_history@,
        peers_wf(old(singleton).peers@) ==> peers_wf(final(singleton).peers@),
{
    let ghost configured = singleton.configuration.peer@;
    let ghost keep = |p: Peer| p.url is Some;
    let ghost f = |p: Peer| Peer { id: None, url: p.url, polling: p.polling };
    let mut i: usize = 0;
    while i < singleton.configuration.peer.len()
        invariant
            0 <= i <= singleton.configuration.peer.len(),
            singleton.configuration == old(singleton).configuration,
            configured == singleton.configuration.peer@,
            keep == (|p: Peer| p.url is Some),
            f == (|p: Peer| Peer { id: None, url: p.url, polling: p.polling }),
            singleton.peers@ == old(singleton).peers@ + filter_map(configured.take(i as int), keep, f),
            singleton.routes@ == old(singleton).routes@,
            singleton.backlog@ == old(singleton).backlog@,
            singleton.tickets@ == old(singleton).tickets@,
            singleton.traces@ == old(singleton).traces@,
            singleton.broadcasts@ == old(singleton).broadcasts@,
            singleton.broadcast_history@ == old(singleton).broadcast_history@,
        decreases singleton.configuration.peer.len() - i,
    {
        proof {
            lemma_filter_map_take_step(configured, keep, f, i as int);
        }
        let p = &singleton.configuration.peer[i];
        match &p.url {
            Some(u) => {
                let row = Peer { id: None, url: Some(u.clone()), polling: p.polling };
                singleton.peers.push(row);
            },
            None => (),
        }
        proof {
            assert(singleton.peers@ =~= old(singleton).peers@ + filter_map(
                configured.take(i + 1 as int),
                keep,
                f,
            ));
        }
        i = i + 1;
    }
    proof {
        assert(configured.take(configured.len() as int) =~= configured);
        assert forall|k: int|
            0 <= k < singleton.peers@.len() && peers_wf(old(singleton).peers@) implies peer_wf(
            #[trigger] singleton.peers@[k],
        ) by {
            if k >= old(singleton).peers@.len() {
                let j = k - old(singleton).peers@.len();
                crate::seq_util::lemma_filter_map_src(configured, keep, f, j);
                let s = crate::seq_util::filter_map_src(configured, keep, j);
                assert(singleton.peers@[k] == f(configured[s]));
            }
        }
    }
}

/// The first url bound to a peer whose learned id is `id`, scanning from
/// row `i` on.
pub open spec fn first_url_from(peers: Seq<Peer>, id: Seq<char>, i: int) -> Option<String>
    decreases peers.len() - i,
{
    if i < 0 || i >= peers.len() {
        None
    } else if peer_has_id(peers[i], id) && peers[i].url is Some {
        peers[i].url
    } else {
        first_url_from(peers, id, i + 1)
    }
}

/// Look up the transport endpoint for the peer known as `id`: the first
/// row whose learned id matches and whose url is set.
pub fn lookup_peer_url(id: &String, singleton: &Singleton) -> (r: Option<String>)
    ensures
        r == first_url_from(singleton.peers@, id@, 0),
{
    let mut i: usize = 0;
    while i < singleton.peers.len()
        invariant
            0 <= i <= singleton.peers.len(),
            first_url_from(singleton.peers@, id@, i as int) == first_url_from(
                singleton.peers@,
                id@,
                0,
            ),
        decreases singleton.peers.len() - i,
    {
        let p = &singleton.peers[i];
        let id_matches = match &p.id {
            Some(pid) => *pid == *id,
            None => false,
        };
        if id_matches {
            match &p.url {
                Some(u) => {
                    proof {
                        assert(first_url_from(singleton.peers@, id@, i as int)
                            == singleton.peers@[i as int].url);
                    }
                    return Some(u.clone());
                },
                None => (),
            }
        }
        proof {
            assert(first_url_from(singleton.peers@, id@, i as int) == first_url_from(
                singleton.peers@,
                id@,
                i + 1 as int,
            ));
        }
        i = i + 1;
    }
    None
}

/// Record that traffic from id `id` was seen: when no row carries that id
/// yet, a url-less non-polling row is added so the id stays known.
pub fn touch_peer(id: &String, singleton: &mut Singleton)
    ensures
        final(singleton).configuration == old(singleton).configuration,
        final(singleton).routes@ == old(singleton).routes@,
        final(singleton).backlog@ == old(singleton).backlog@,
        final(singleton).tickets@ == old(singleton).tickets@,
        final(singleton).traces@ == old(singleton).traces@,
        final(singleton).broadcasts@ == old(singleton).broadcasts@,
        final(singleton).broadcast_history@ == old(singleton).broadcast_history@,
        (exists|i: int|
            0 <= i < old(singleton).peers@.len() && peer_has_id(
                #[trigger] old(singleton).peers@[i],
                id@,
            )) ==> final(singleton).peers@ == old(singleton).peers@,
        !(exists|i: int|
            0 <= i < old(singleton).peers@.len() && peer_has_id(
                #[trigger] old(singleton).peers@[i],
                id@,
            )) ==> final(singleton).peers@.len() == old(singleton).peers@.len() + 1
            && final(singleton).peers@.take(old(singleton).peers@.len() as int) == old(singleton).peers@
            && peer_has_id(final(singleton).peers@.last(), id@) && final(singleton).peers@.last().url is None
            && !final(singleton).peers@.last().polling,
        peers_wf(old(singleton).peers@) ==> peers_wf(final(singleton).peers@),
{
    let mut i: usize = 0;
    let mut present = false;
    while i < singleton.peers.len()
        invariant
            0 <= i <= singleton.peers.len(),
            *singleton == *old(singleton),
            present ==> exists|k: int|
                0 <= k < singleton.peers@.len() && peer_has_id(#[trigger] singleton.peers@[k], id@),
            !present ==> forall|k: int|
                0 <= k < i ==> !peer_has_id(#[trigger] singleton.peers@[k], id@),
        decreases singleton.peers.len() - i,
    {
        let p = &singleton.peers[i];
        let id_matches = match &p.id {
            Some(pid) => *pid == *id,
            None => false,
        };
        if id_matches {
            proof {
                assert(peer_has_id(singleton.peers@[i as int], id@));
            }
            present = true;
        }
        i = i + 1;
    }
    if !present {
        let row = Peer { id: Some(id.clone()), url: None, polling: false };
        singleton.peers.push(row);
        proof {
            assert(singleton.peers@.take(old(singleton).peers@.len() as int) =~= old(
                singleton,
            ).peers@);
        }
    }
}

/// What a peer row becomes when a reply from `origin` arrives over `url`:
/// rows bound to that url learn the origin id, other rows stay.
pub open spec fn stamped_peer(p: Peer, url: Seq<char>, origin: String) -> Peer {
    if peer_has_url(p, url) {
        Peer { id: Some(origin), url: p.url, polling: p.polling }
    } else {
        p
    }
}

/// Stamp the origin id of a successful exchange over `url` onto every peer
/// row bound to that url.
pub fn record_peer_origin(singleton: &mut Singleton, url: &String, origin_id: &String)
    ensures
        final(singleton).configuration == old(singleton).configuration,
        final(singleton).routes@ == old(singleton).routes@,
        final(singleton).backlog@ == old(singleton).backlog@,
        final(singleton).tickets@ == old(singleton).tickets@,
        final(singleton).traces@ == old(singleton).traces@,
        final(singleton).broadcasts@ == old(singleton).broadcasts@,
        final(singleton).broadcast_history@ == old(singleton).broadcast_history@,
        final(singleton).peers@.len() == old(singleton).peers@.len(),
        forall|i: int|
            0 <= i < final(singleton).peers@.len() ==> final(singleton).peers@[i] == stamped_peer(
                #[trigger] old(singleton).peers@[i],
                url@,
                *origin_id,
            ),
        peers_wf(old(singleton).peers@) ==> peers_wf(final(singleton).peers@),
{
    let mut i: usize = 0;
    while i < singleton.peers.len()
        invariant
            0 <= i <= singleton.peers.len(),
            singleton.configuration == old(singleton).configuration,
            singleton.routes@ == old(singleton).routes@,
            singleton.backlog@ == old(singleton).backlog@,
            singleton.tickets@ == old(singleton).tickets@,
            singleton.traces@ == old(singleton).traces@,
            singleton.broadcasts@ == old(singleton).broadcasts@,
            singleton.broadcast_history@ == old(singleton).broadcast_history@,
            singleton.peers@.len() == old(singleton).peers@.len(),
            forall|k: int|
                0 <= k < i ==> singleton.peers@[k] == stamped_peer(
                    #[trigger] old(singleton).peers@[k],
                    url@,
                    *origin_id,
                ),
            forall|k: int|
                i <= k < singleton.peers@.len() ==> singleton.peers@[k] == old(
                    singleton,
                ).peers@[k],
        decreases singleton.peers.len() - i,
    {
        let url_matches = match &singleton.peers[i].url {
            Some(u) => *u == *url,
            None => false,
        };
        let ghost before = singleton.peers@;
        if url_matches {
            let old_row = singleton.peers.remove(i);
            let row = Peer {
                id: Some(origin_id.clone()),
                url: old_row.url,
                polling: old_row.polling,
            };
            singleton.peers.insert(i, row);
            proof {
                assert(singleton.peers@ =~= before.update(
                    i as int,
                    stamped_peer(before[i as int], url@, *origin_id),
                ));
            }
        }
        i = i + 1;
    }
    proof {
        if peers_wf(old(singleton).peers@) {
            assert forall|k: int| 0 <= k < singleton.peers@.len() implies peer_wf(
                #[trigger] singleton.peers@[k],
            ) by {
                assert(singleton.peers@[k] == stamped_peer(
                    old(singleton).peers@[k],
                    url@,
                    *origin_id,
                ));
                assert(peer_wf(old(singleton).peers@[k]));
            }
        }
    }
}

} // verus!
