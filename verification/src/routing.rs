use vstd::prelude::*;

use crate::seq_util::filter_map;
use crate::seq_util::lemma_filter_map_take_step;
use crate::seq_util::str_seq_eqv;
use crate::state::Singleton;

verus! {

/// One distance-vector row: how to reach `destination_id` through the
/// neighbor `gateway_id`.  `weight` is `None` only on the self-route,
/// which outranks every finite weight.
pub struct Route {
    pub gateway_id: String,
    pub destination_id: String,
    pub weight: Option<usize>,
}

/// An operator query for the route table: optional destination and
/// gateway filters, intersected; `routes` is the answer.
#[derive(Default)]
pub struct RouteQuery {
    pub routes: Option<Vec<Route>>,
    pub destination_ids: Option<Vec<String>>,
    pub gateway_ids: Option<Vec<String>>,
}

/// A full route table snapshot, advertised to a neighbor.
#[derive(Default)]
pub struct RouteAdvertisement {
    pub routes: Vec<Route>,
}

/// A request to drop the routes toward `destination_id` that pass through
/// the sender.
pub struct RouteRecall {
    pub destination_id: String,
}

impl Clone for Route {
    fn clone(&self) -> (r: Self)
        ensures
            r == *self,
    {
        Route {
            gateway_id: self.gateway_id.clone(),
            destination_id: self.destination_id.clone(),
            weight: self.weight,
        }
    }
}

impl Route {
    /// Deep equality, strings compared by contents.
    pub open spec fn eqv(self, o: Route) -> bool {
        self.gateway_id@ == o.gateway_id@ && self.destination_id@ == o.destination_id@
            && self.weight == o.weight
    }
}

/// Deep equality of route sequences, elementwise.
pub open spec fn route_seq_eqv(a: Seq<Route>, b: Seq<Route>) -> bool {
    a.len() == b.len() && forall|i: int| 0 <= i < a.len() ==> #[trigger] a[i].eqv(b[i])
}

impl RouteQuery {
    /// Deep equality, strings compared by contents.
    pub open spec fn eqv(self, o: RouteQuery) -> bool {
        &&& match (self.routes, o.routes) {
            (None, None) => true,
            (Some(a), Some(b)) => route_seq_eqv(a@, b@),
            _ => false,
        }
        &&& match (self.destination_ids, o.destination_ids) {
            (None, None) => true,
            (Some(a), Some(b)) => str_seq_eqv(a@, b@),
            _ => false,
        }
        &&& match (self.gateway_ids, o.gateway_ids) {
            (None, None) => true,
            (Some(a), Some(b)) => str_seq_eqv(a@, b@),
            _ => false,
        }
    }
}

impl RouteAdvertisement {
    /// Deep equality, strings compared by contents.
    pub open spec fn eqv(self, o: RouteAdvertisement) -> bool {
        route_seq_eqv(self.routes@, o.routes@)
    }
}

impl RouteRecall {
    /// Deep equality, strings compared by contents.
    pub open spec fn eqv(self, o: RouteRecall) -> bool {
        self.destination_id@ == o.destination_id@
    }
}

impl Clone for RouteRecall {
    fn clone(&self) -> (r: Self)
        ensures
            r == *self,
    {
        RouteRecall { destination_id: self.destination_id.clone() }
    }
}

/// Copy a route table row for row; the copy is equal.
pub fn duplicate_routes(routes: &Vec<Route>) -> (r: Vec<Route>)
    ensures
        r@ == routes@,
{
    let mut out: Vec<Route> = Vec::new();
    let mut i: usize = 0;
    while i < routes.len()
        invariant
            0 <= i <= routes.len(),
            out@ =~= routes@.take(i as int),
        decreases routes.len() - i,
    {
        out.push(routes[i].clone());
        proof {
            assert(out@ =~= routes@.take(i + 1 as int));
        }
        i = i + 1;
    }
    proof {
        assert(out@ =~= routes@);
    }
    out
}

impl Clone for RouteQuery {
    fn clone(&self) -> (r: Self)
        ensures
            self.eqv(r),
    {
        RouteQuery {
            routes: match &self.routes {
                Some(v) => Some(duplicate_routes(v)),
                None => None,
            },
            destination_ids: match &self.destination_ids {
                Some(v) => Some(duplicate_strings(v)),
                None => None,
            },
            gateway_ids: match &self.gateway_ids {
                Some(v) => Some(duplicate_strings(v)),
                None => None,
            },
        }
    }
}

/// Copy a list of strings; the copy is equal.
pub fn duplicate_strings(v: &Vec<String>) -> (r: Vec<String>)
    ensures
        r@ == v@,
{
    let mut out: Vec<String> = Vec::new();
    let mut i: usize = 0;
    while i < v.len()
        invariant
            0 <= i <= v.len(),
            out@ =~= v@.take(i as int),
        decreases v.len() - i,
    {
        out.push(v[i].clone());
        proof {
            assert(out@ =~= v@.take(i + 1 as int));
        }
        i = i + 1;
    }
    proof {
        assert(out@ =~= v@);
    }
    out
}

/// The rank of a route weight: `None` (the self-route) is strictly below
/// every finite weight.
pub open spec fn weight_rank(w: Option<usize>) -> int {
    match w {
        None => -1,
        Some(x) => x as int,
    }
}

/// The best matching route in `routes[i..]`, given that `best` is the
/// best among the rows before `i`: first occurrence of minimal rank wins.
pub open spec fn resolve_from(
    routes: Seq<Route>,
    d: Seq<char>,
    i: int,
    best: Option<Route>,
) -> Option<Route>
    decreases routes.len() - i,
{
    if i < 0 || i >= routes.len() {
        best
    } else {
        let better = match best {
            None => routes[i].destination_id@ == d,
            Some(b) => routes[i].destination_id@ == d && weight_rank(routes[i].weight)
                < weight_rank(b.weight),
        };
        resolve_from(routes, d, i + 1, if better {
            Some(routes[i])
        } else {
            best
        })
    }
}

/// The route that resolution picks for destination `d`: the first row of
/// minimal rank among the rows whose destination is `d`.
pub open spec fn spec_resolve(routes: Seq<Route>, d: Seq<char>) -> Option<Route> {
    resolve_from(routes, d, 0, None)
}

/// The view of the gateway resolution picks for `d`, if any row matches.
pub open spec fn spec_resolved_gateway(routes: Seq<Route>, d: Seq<char>) -> Option<Seq<char>> {
    match spec_resolve(routes, d) {
        None => None,
        Some(rt) => Some(rt.gateway_id@),
    }
}

/// True when the rank of `a` is strictly below the rank of `b`.
fn rank_lt(a: &Option<usize>, b: &Option<usize>) -> (r: bool)
    ensures
        r == (weight_rank(*a) < weight_rank(*b)),
{
    match (a, b) {
        (None, Some(_)) => true,
        (Some(x), Some(y)) => *x < *y,
        _ => false,
    }
}

/// Resolve the next hop toward `destination_id` on a route table: the
/// gateway of the matching row with minimal weight (`None` below any
/// `Some`), ties broken by first occurrence; `None` when no row matches.
pub fn resolve_gateway_on(routes: &Vec<Route>, destination_id: &String) -> (r: Option<String>)
    ensures
        match spec_resolve(routes@, destination_id@) {
            None => r is None,
            Some(rt) => r matches Some(g) && g@ == rt.gateway_id@,
        },
{
    let ghost d = destination_id@;
    let mut best: Option<usize> = None;
    let mut i: usize = 0;
    while i < routes.len()
        invariant
            0 <= i <= routes.len(),
            d == destination_id@,
            match best {
                None => resolve_from(routes@, d, i as int, None) == spec_resolve(routes@, d),
                Some(bi) => bi < i && routes@[bi as int].destination_id@ == d && resolve_from(
                    routes@,
                    d,
                    i as int,
                    Some(routes@[bi as int]),
                ) == spec_resolve(routes@, d),
            },
        decreases routes.len() - i,
    {
        let row_matches = routes[i].destination_id == *destination_id;
        let better = match best {
            None => row_matches,
            Some(bi) => row_matches && rank_lt(&routes[i].weight, &routes[bi].weight),
        };
        if better {
            best = Some(i);
        }
        i = i + 1;
    }
    match best {
        None => None,
        Some(bi) => Some(routes[bi].gateway_id.clone()),
    }
}

/// Resolve the next hop toward `destination_id` from the node state.
pub fn resolve_gateway_id(destination_id: &String, singleton: &Singleton) -> (r: Option<String>)
    ensures
        match spec_resolve(singleton.routes@, destination_id@) {
            None => r is None,
            Some(rt) => r matches Some(g) && g@ == rt.gateway_id@,
        },
{
    resolve_gateway_on(&singleton.routes, destination_id)
}

/// True when row `i` of `routes` is toward `d`.
pub open spec fn route_toward(routes: Seq<Route>, d: Seq<char>, i: int) -> bool {
    0 <= i < routes.len() && routes[i].destination_id@ == d
}

/// What resolution returns, spelled out: no row toward `d`, or the first
/// minimal-rank row toward `d`.
pub proof fn lemma_resolve_characterization(routes: Seq<Route>, d: Seq<char>)
    ensures
        match spec_resolve(routes, d) {
            None => forall|j: int| !route_toward(routes, d, j),
            Some(rt) => exists|bi: int|
                {
                    &&& route_toward(routes, d, bi)
                    &&& routes[bi] == rt
                    &&& forall|j: int|
                        route_toward(routes, d, j) ==> weight_rank(routes[j].weight) >= weight_rank(
                            rt.weight,
                        )
                    &&& forall|j: int|
                        route_toward(routes, d, j) && j < bi ==> weight_rank(routes[j].weight)
                            > weight_rank(rt.weight)
                },
        },
{
    lemma_resolve_from_props(routes, d, 0, None);
}

proof fn lemma_resolve_from_props(routes: Seq<Route>, d: Seq<char>, i: int, best: Option<Route>)
    requires
        0 <= i <= routes.len(),
        match best {
            None => forall|j: int| j < i ==> !route_toward(routes, d, j),
            Some(b) => exists|bi: int|
                {
                    &&& route_toward(routes, d, bi)
                    &&& bi < i
                    &&& routes[bi] == b
                    &&& forall|j: int|
                        route_toward(routes, d, j) && j < i ==> weight_rank(routes[j].weight)
                            >= weight_rank(b.weight)
                    &&& forall|j: int|
                        route_toward(routes, d, j) && j < bi ==> weight_rank(routes[j].weight)
                            > weight_rank(b.weight)
                },
        },
    ensures
        match resolve_from(routes, d, i, best) {
            None => forall|j: int| !route_toward(routes, d, j),
            Some(rt) => exists|bi: int|
                {
                    &&& route_toward(routes, d, bi)
                    &&& routes[bi] == rt
                    &&& forall|j: int|
                        route_toward(routes, d, j) ==> weight_rank(routes[j].weight) >= weight_rank(
                            rt.weight,
                        )
                    &&& forall|j: int|
                        route_toward(routes, d, j) && j < bi ==> weight_rank(routes[j].weight)
                            > weight_rank(rt.weight)
                },
        },
    decreases routes.len() - i,
{
    if i < routes.len() {
        let better = match best {
            None => routes[i].destination_id@ == d,
            Some(b) => routes[i].destination_id@ == d && weight_rank(routes[i].weight)
                < weight_rank(b.weight),
        };
        let next = if better {
            Some(routes[i])
        } else {
            best
        };
        if better {
            assert(route_toward(routes, d, i));
        }
        lemma_resolve_from_props(routes, d, i + 1, next);
    }
}

/// A route with weight `None` toward `d` always wins resolution.
pub proof fn lemma_none_weight_wins(routes: Seq<Route>, d: Seq<char>, i: int)
    requires
        route_toward(routes, d, i),
        routes[i].weight is None,
    ensures
        spec_resolve(routes, d) matches Some(rt) && rt.weight is None,
{
    lemma_resolve_characterization(routes, d);
    match spec_resolve(routes, d) {
        None => {
            assert(route_toward(routes, d, i));
        },
        Some(rt) => {
            assert(weight_rank(routes[i].weight) >= weight_rank(rt.weight));
        },
    }
}

/// At most one row per (destination, gateway) pair.
pub open spec fn routes_pair_unique(routes: Seq<Route>) -> bool {
    forall|i: int, j: int|
        0 <= i < j < routes.len() ==> !(#[trigger] routes[i].destination_id@
            == #[trigger] routes[j].destination_id@ && routes[i].gateway_id@
            == routes[j].gateway_id@)
}

/// True when `r` is the self-route of the node called `id`.
pub open spec fn is_self_route(r: Route, id: Seq<char>) -> bool {
    r.destination_id@ == id && r.gateway_id@ == id && r.weight is None
}

/// The route table invariant of a node called `id`: pairwise-unique
/// (destination, gateway) pairs, a self-route present, and every row from
/// the node to itself weightless.
pub open spec fn route_table_wf(routes: Seq<Route>, id: Seq<char>) -> bool {
    &&& routes_pair_unique(routes)
    &&& exists|i: int| 0 <= i < routes.len() && is_self_route(#[trigger] routes[i], id)
    &&& forall|i: int|
        0 <= i < routes.len() && (#[trigger] routes[i]).destination_id@ == id
            && routes[i].gateway_id@ == id ==> routes[i].weight is None
}

/// True when some peer row binds `url` to the id that route `r` targets.
pub open spec fn route_dest_bound_to_url(
    r: Route,
    peers: Seq<crate::peering::Peer>,
    url: Seq<char>,
) -> bool {
    exists|k: int|
        0 <= k < peers.len() && crate::peering::peer_has_url(#[trigger] peers[k], url)
            && crate::peering::peer_has_id(peers[k], r.destination_id@)
}

/// The rows that survive losing the transport at `url`: a row stays
/// unless its destination is an id bound to that url — except rows whose
/// destination equals their gateway, which are always kept.
pub open spec fn url_removal_kept(peers: Seq<crate::peering::Peer>, url: Seq<char>) -> spec_fn(
    Route,
) -> bool {
    |r: Route| !route_dest_bound_to_url(r, peers, url) || r.destination_id@ == r.gateway_id@
}

/// The rows that survive a recall of `(gateway, destination)`.
pub open spec fn recall_kept(gateway: Seq<char>, destination: Seq<char>) -> spec_fn(Route) -> bool {
    |r: Route| !(r.destination_id@ == destination && r.gateway_id@ == gateway)
}

/// Whether an aged row survives: weightless rows always do, weighted rows
/// while the bumped weight stays within `max`.
pub open spec fn age_kept(max: usize) -> spec_fn(Route) -> bool {
    |r: Route|
        match r.weight {
            None => true,
            Some(w) => w < max,
        }
}

/// An aged row: the weight bumped by one, weightless rows untouched.
pub open spec fn age_bumped() -> spec_fn(Route) -> Route {
    |r: Route|
        match r.weight {
            None => r,
            Some(w) => Route {
                gateway_id: r.gateway_id,
                destination_id: r.destination_id,
                weight: Some((w + 1) as usize),
            },
        }
}

/// The filtered-and-mapped table keeps (destination, gateway) pairs
/// pairwise-unique when the map leaves both ids of every row unchanged.
pub proof fn lemma_filtered_pair_unique(
    src: Seq<Route>,
    out: Seq<Route>,
    keep: spec_fn(Route) -> bool,
    f: spec_fn(Route) -> Route,
)
    requires
        out == crate::seq_util::filter_map(src, keep, f),
        routes_pair_unique(src),
        forall|r: Route|
            (#[trigger] f(r)).destination_id == r.destination_id && f(r).gateway_id
                == r.gateway_id,
    ensures
        routes_pair_unique(out),
{
    assert forall|i: int, j: int| 0 <= i < j < out.len() implies !(
    #[trigger] out[i].destination_id@ == #[trigger] out[j].destination_id@ && out[i].gateway_id@
        == out[j].gateway_id@) by {
        crate::seq_util::lemma_filter_map_src(src, keep, f, i);
        crate::seq_util::lemma_filter_map_src(src, keep, f, j);
        crate::seq_util::lemma_filter_map_src_increasing(src, keep, f, i, j);
        let si = crate::seq_util::filter_map_src(src, keep, i);
        let sj = crate::seq_util::filter_map_src(src, keep, j);
        assert(!(src[si].destination_id@ == src[sj].destination_id@ && src[si].gateway_id@
            == src[sj].gateway_id@));
    }
}

/// The filtered-and-mapped table keeps the whole table invariant when the
/// map leaves ids unchanged and weightless rows untouched, and the filter
/// keeps every self-route.
pub proof fn lemma_filtered_table_wf(
    src: Seq<Route>,
    out: Seq<Route>,
    keep: spec_fn(Route) -> bool,
    f: spec_fn(Route) -> Route,
    id: Seq<char>,
)
    requires
        out == crate::seq_util::filter_map(src, keep, f),
        route_table_wf(src, id),
        forall|r: Route|
            (#[trigger] f(r)).destination_id == r.destination_id && f(r).gateway_id
                == r.gateway_id,
        forall|r: Route| r.weight is None ==> #[trigger] f(r) == r,
        forall|r: Route| is_self_route(r, id) ==> #[trigger] keep(r),
    ensures
        route_table_wf(out, id),
{
    lemma_filtered_pair_unique(src, out, keep, f);
    let si = choose|si: int| 0 <= si < src.len() && is_self_route(#[trigger] src[si], id);
    crate::seq_util::lemma_filter_map_pos(src, keep, f, si);
    let pos = crate::seq_util::filter_map_pos(src, keep, si);
    assert(out[pos] == src[si]);
    assert(is_self_route(out[pos], id));
    assert forall|k: int|
        0 <= k < out.len() && (#[trigger] out[k]).destination_id@ == id && out[k].gateway_id@
            == id implies out[k].weight is None by {
        crate::seq_util::lemma_filter_map_src(src, keep, f, k);
        let s = crate::seq_util::filter_map_src(src, keep, k);
        assert(src[s].destination_id@ == id && src[s].gateway_id@ == id);
        assert(src[s].weight is None);
        assert(f(src[s]) == src[s]);
    }
}

/// Seed the route table with the node's own self-route.
pub fn initialize_routes(singleton: &mut Singleton)
    ensures
        final(singleton).routes@ == old(singleton).routes@.push(
            Route {
                destination_id: old(singleton).configuration.id,
                gateway_id: old(singleton).configuration.id,
                weight: None,
            },
        ),
        final(singleton).configuration == old(singleton).configuration,
        final(singleton).peers@ == old(singleton).peers@,
        final(singleton).backlog@ == old(singleton).backlog@,
        final(singleton).tickets@ == old(singleton).tickets@,
        final(singleton).traces@ == old(singleton).traces@,
        final(singleton).broadcasts@ == old(singleton).broadcasts@,
        final(singleton).broadcast_history@ == old(singleton).broadcast_history@,
        old(singleton).routes@.len() == 0 ==> route_table_wf(
            final(singleton).routes@,
            final(singleton).configuration.id@,
        ),
{
    let row = Route {
        destination_id: singleton.configuration.id.clone(),
        gateway_id: singleton.configuration.id.clone(),
        weight: None,
    };
    singleton.routes.push(row);
    proof {
        if old(singleton).routes@.len() == 0 {
            assert(is_self_route(singleton.routes@[0], singleton.configuration.id@));
        }
    }
}

/// True when some peer row binds `url` to the destination id `dest`.
fn peer_binds_dest(peers: &Vec<crate::peering::Peer>, url: &String, dest: &String) -> (r: bool)
    ensures
        r == exists|k: int|
            0 <= k < peers@.len() && crate::peering::peer_has_url(#[trigger] peers@[k], url@)
                && crate::peering::peer_has_id(peers@[k], dest@),
{
    let mut k: usize = 0;
    while k < peers.len()
        invariant
            0 <= k <= peers.len(),
            forall|j: int|
                0 <= j < k ==> !(crate::peering::peer_has_url(#[trigger] peers@[j], url@)
                    && crate::peering::peer_has_id(peers@[j], dest@)),
        decreases peers.len() - k,
    {
        let p = &peers[k];
        let url_matches = match &p.url {
            Some(u) => *u == *url,
            None => false,
        };
        let id_matches = match &p.id {
            Some(pid) => *pid == *dest,
            None => false,
        };
        if url_matches && id_matches {
            proof {
                assert(crate::peering::peer_has_url(peers@[k as int], url@)
                    && crate::peering::peer_has_id(peers@[k as int], dest@));
            }
            return true;
        }
        k = k + 1;
    }
    false
}

/// Drop every route whose destination is an id of a peer bound to the
/// dead `url`, keeping rows whose destination equals their gateway (the
/// self-route among them).
pub fn remove_routes_by_url(url: &String, singleton: &mut Singleton)
    ensures
        final(singleton).routes@ == crate::seq_util::filter_map(
            old(singleton).routes@,
            url_removal_kept(old(singleton).peers@, url@),
            |r: Route| r,
        ),
        final(singleton).configuration == old(singleton).configuration,
        final(singleton).peers@ == old(singleton).peers@,
        final(singleton).backlog@ == old(singleton).backlog@,
        final(singleton).tickets@ == old(singleton).tickets@,
        final(singleton).traces@ == old(singleton).traces@,
        final(singleton).broadcasts@ == old(singleton).broadcasts@,
        final(singleton).broadcast_history@ == old(singleton).broadcast_history@,
        routes_pair_unique(old(singleton).routes@) ==> routes_pair_unique(
            final(singleton).routes@,
        ),
        route_table_wf(old(singleton).routes@, old(singleton).configuration.id@)
            ==> route_table_wf(final(singleton).routes@, final(singleton).configuration.id@),
{
    let ghost old_routes = singleton.routes@;
    let ghost keep = url_removal_kept(singleton.peers@, url@);
    let ghost fid = |r: Route| r;
    let mut kept: Vec<Route> = Vec::new();
    let mut i: usize = 0;
    while i < singleton.routes.len()
        invariant
            0 <= i <= singleton.routes.len(),
            *singleton == *old(singleton),
            old_routes == singleton.routes@,
            keep == url_removal_kept(singleton.peers@, url@),
            fid == (|r: Route| r),
            kept@ == crate::seq_util::filter_map(old_routes.take(i as int), keep, fid),
        decreases singleton.routes.len() - i,
    {
        proof {
            crate::seq_util::lemma_filter_map_take_step(old_routes, keep, fid, i as int);
        }
        let r = &singleton.routes[i];
        let dest_eq_gw = r.destination_id == r.gateway_id;
        let bound = peer_binds_dest(&singleton.peers, url, &r.destination_id);
        if !bound || dest_eq_gw {
            let copy = singleton.routes[i].clone();
            kept.push(copy);
        }
        proof {
            assert(kept@ =~= crate::seq_util::filter_map(
                old_routes.take(i + 1 as int),
                keep,
                fid,
            ));
        }
        i = i + 1;
    }
    proof {
        assert(old_routes.take(old_routes.len() as int) =~= old_routes);
    }
    singleton.routes = kept;
    proof {
        if routes_pair_unique(old_routes) {
            lemma_filtered_pair_unique(old_routes, singleton.routes@, keep, fid);
        }
        if route_table_wf(old_routes, old(singleton).configuration.id@) {
            lemma_filtered_table_wf(
                old_routes,
                singleton.routes@,
                keep,
                fid,
                old(singleton).configuration.id@,
            );
        }
    }
}

/// Drop every route with the given gateway and destination.
pub fn remove_routes_by_gateway_and_destination(
    gateway_id: &String,
    destination_id: &String,
    singleton: &mut Singleton,
)
    ensures
        final(singleton).routes@ == crate::seq_util::filter_map(
            old(singleton).routes@,
            recall_kept(gateway_id@, destination_id@),
            |r: Route| r,
        ),
        final(singleton).configuration == old(singleton).configuration,
        final(singleton).peers@ == old(singleton).peers@,
        final(singleton).backlog@ == old(singleton).backlog@,
        final(singleton).tickets@ == old(singleton).tickets@,
        final(singleton).traces@ == old(singleton).traces@,
        final(singleton).broadcasts@ == old(singleton).broadcasts@,
        final(singleton).broadcast_history@ == old(singleton).broadcast_history@,
        routes_pair_unique(old(singleton).routes@) ==> routes_pair_unique(
            final(singleton).routes@,
        ),
        route_table_wf(old(singleton).routes@, old(singleton).configuration.id@) && !(gateway_id@
            == old(singleton).configuration.id@ && destination_id@ == old(
            singleton,
        ).configuration.id@) ==> route_table_wf(
            final(singleton).routes@,
            final(singleton).configuration.id@,
        ),
{
    let ghost old_routes = singleton.routes@;
    let ghost keep = recall_kept(gateway_id@, destination_id@);
    let ghost fid = |r: Route| r;
    let mut kept: Vec<Route> = Vec::new();
    let mut i: usize = 0;
    while i < singleton.routes.len()
        invariant
            0 <= i <= singleton.routes.len(),
            *singleton == *old(singleton),
            old_routes == singleton.routes@,
            keep == recall_kept(gateway_id@, destination_id@),
            fid == (|r: Route| r),
            kept@ == crate::seq_util::filter_map(old_routes.take(i as int), keep, fid),
        decreases singleton.routes.len() - i,
    {
        proof {
            crate::seq_util::lemma_filter_map_take_step(old_routes, keep, fid, i as int);
        }
        let r = &singleton.routes[i];
        let hit = r.destination_id == *destination_id && r.gateway_id == *gateway_id;
        if !hit {
            let copy = singleton.routes[i].clone();
            kept.push(copy);
        }
        proof {
            assert(kept@ =~= crate::seq_util::filter_map(
                old_routes.take(i + 1 as int),
                keep,
                fid,
            ));
        }
        i = i + 1;
    }
    proof {
        assert(old_routes.take(old_routes.len() as int) =~= old_routes);
    }
    singleton.routes = kept;
    proof {
        if routes_pair_unique(old_routes) {
            lemma_filtered_pair_unique(old_routes, singleton.routes@, keep, fid);
        }
        if route_table_wf(old_routes, old(singleton).configuration.id@) && !(gateway_id@ == old(
            singleton,
        ).configuration.id@ && destination_id@ == old(singleton).configuration.id@) {
            lemma_filtered_table_wf(
                old_routes,
                singleton.routes@,
                keep,
                fid,
                old(singleton).configuration.id@,
            );
        }
    }
}

/// One aging tick: bump every finite weight by one and evict the rows
/// whose new weight exceeds `maxrouteweight`.  Afterwards every finite
/// weight is within the cap; with a cap of zero no finite-weight row
/// survives at all.
pub fn age_routes(singleton: &mut Singleton)
    ensures
        final(singleton).routes@ == crate::seq_util::filter_map(
            old(singleton).routes@,
            age_kept(old(singleton).configuration.maxrouteweight),
            age_bumped(),
        ),
        final(singleton).configuration == old(singleton).configuration,
        final(singleton).peers@ == old(singleton).peers@,
        final(singleton).backlog@ == old(singleton).backlog@,
        final(singleton).tickets@ == old(singleton).tickets@,
        final(singleton).traces@ == old(singleton).traces@,
        final(singleton).broadcasts@ == old(singleton).broadcasts@,
        final(singleton).broadcast_history@ == old(singleton).broadcast_history@,
        forall|i: int|
            0 <= i < final(singleton).routes@.len()
                ==> match (#[trigger] final(singleton).routes@[i]).weight {
                None => true,
                Some(w) => w <= final(singleton).configuration.maxrouteweight,
            },
        final(singleton).configuration.maxrouteweight == 0 ==> forall|i: int|
            0 <= i < final(singleton).routes@.len()
                ==> (#[trigger] final(singleton).routes@[i]).weight is None,
        routes_pair_unique(old(singleton).routes@) ==> routes_pair_unique(
            final(singleton).routes@,
        ),
        route_table_wf(old(singleton).routes@, old(singleton).configuration.id@)
            ==> route_table_wf(final(singleton).routes@, final(singleton).configuration.id@),
{
    let max = singleton.configuration.maxrouteweight;
    let ghost old_routes = singleton.routes@;
    let ghost keep = age_kept(max);
    let ghost bump = age_bumped();
    let mut kept: Vec<Route> = Vec::new();
    let mut i: usize = 0;
    while i < singleton.routes.len()
        invariant
            0 <= i <= singleton.routes.len(),
            *singleton == *old(singleton),
            old_routes == singleton.routes@,
            max == singleton.configuration.maxrouteweight,
            keep == age_kept(max),
            bump == age_bumped(),
            kept@ == crate::seq_util::filter_map(old_routes.take(i as int), keep, bump),
        decreases singleton.routes.len() - i,
    {
        proof {
            crate::seq_util::lemma_filter_map_take_step(old_routes, keep, bump, i as int);
        }
        let r = &singleton.routes[i];
        match r.weight {
            None => {
                let copy = singleton.routes[i].clone();
                kept.push(copy);
            },
            Some(w) => {
                if w < max {
                    let copy = Route {
                        gateway_id: r.gateway_id.clone(),
                        destination_id: r.destination_id.clone(),
                        weight: Some(w + 1),
                    };
                    kept.push(copy);
                }
            },
        }
        proof {
            assert(kept@ =~= crate::seq_util::filter_map(
                old_routes.take(i + 1 as int),
                keep,
                bump,
            ));
        }
        i = i + 1;
    }
    proof {
        assert(old_routes.take(old_routes.len() as int) =~= old_routes);
    }
    singleton.routes = kept;
    proof {
        assert forall|k: int| 0 <= k < singleton.routes@.len() implies match (
        #[trigger] singleton.routes@[k]).weight {
            None => true,
            Some(w) => w <= max,
        } by {
            crate::seq_util::lemma_filter_map_src(old_routes, keep, bump, k);
            let s = crate::seq_util::filter_map_src(old_routes, keep, k);
            assert(singleton.routes@[k] == bump(old_routes[s]));
        }
        if max == 0 {
            assert forall|k: int|
                0 <= k < singleton.routes@.len() implies (
            #[trigger] singleton.routes@[k]).weight is None by {
                crate::seq_util::lemma_filter_map_src(old_routes, keep, bump, k);
            }
        }
        if routes_pair_unique(old_routes) {
            lemma_filtered_pair_unique(old_routes, singleton.routes@, keep, bump);
        }
        if route_table_wf(old_routes, old(singleton).configuration.id@) {
            lemma_filtered_table_wf(
                old_routes,
                singleton.routes@,
                keep,
                bump,
                old(singleton).configuration.id@,
            );
        }
    }
}

/// The weight an advertised row counts as: an absent weight counts as
/// zero, so a neighbor's weightless self-route is learned at weight one.
pub open spec fn adv_base_weight(w: Option<usize>) -> usize {
    match w {
        None => 0usize,
        Some(x) => x,
    }
}

/// True when row `r` is toward `dest` through `origin`.
pub open spec fn pair_matches(r: Route, dest: Seq<char>, origin: Seq<char>) -> bool {
    r.destination_id@ == dest && r.gateway_id@ == origin
}

/// The smallest counted weight among the rows toward `dest` through
/// `origin`, or `None` when no such row exists.
pub open spec fn spec_min_weight(routes: Seq<Route>, dest: Seq<char>, origin: Seq<char>) -> Option<
    usize,
>
    decreases routes.len(),
{
    if routes.len() == 0 {
        None
    } else {
        let rest = spec_min_weight(routes.drop_last(), dest, origin);
        if pair_matches(routes.last(), dest, origin) {
            let w = adv_base_weight(routes.last().weight);
            match rest {
                None => Some(w),
                Some(m) => if w < m {
                    Some(w)
                } else {
                    Some(m)
                },
            }
        } else {
            rest
        }
    }
}

/// There is no row toward `dest` through `origin` exactly when the
/// minimum over those rows is absent.
pub proof fn lemma_min_weight_none(routes: Seq<Route>, dest: Seq<char>, origin: Seq<char>)
    ensures
        (spec_min_weight(routes, dest, origin) is None) <==> (forall|k: int|
            0 <= k < routes.len() ==> !pair_matches(#[trigger] routes[k], dest, origin)),
    decreases routes.len(),
{
    if routes.len() > 0 {
        lemma_min_weight_none(routes.drop_last(), dest, origin);
        assert(forall|k: int|
            0 <= k < routes.drop_last().len() ==> #[trigger] routes.drop_last()[k] == routes[k]);
        if spec_min_weight(routes, dest, origin) is None {
            assert forall|k: int| 0 <= k < routes.len() implies !pair_matches(
                #[trigger] routes[k],
                dest,
                origin,
            ) by {
                if k < routes.len() - 1 {
                    assert(routes.drop_last()[k] == routes[k]);
                }
            }
        } else {
            if forall|k: int|
                0 <= k < routes.len() ==> !pair_matches(#[trigger] routes[k], dest, origin) {
                assert(!pair_matches(routes.last(), dest, origin));
                assert forall|k: int| 0 <= k < routes.drop_last().len() implies !pair_matches(
                    #[trigger] routes.drop_last()[k],
                    dest,
                    origin,
                ) by {
                    assert(routes.drop_last()[k] == routes[k]);
                }
            }
        }
    }
}

/// One scanned row extends the running minimum by at most one candidate.
pub proof fn lemma_min_weight_take_step(
    routes: Seq<Route>,
    dest: Seq<char>,
    origin: Seq<char>,
    j: int,
)
    requires
        0 <= j < routes.len(),
    ensures
        spec_min_weight(routes.take(j + 1), dest, origin) == ({
            let rest = spec_min_weight(routes.take(j), dest, origin);
            if pair_matches(routes[j], dest, origin) {
                let w = adv_base_weight(routes[j].weight);
                match rest {
                    None => Some(w),
                    Some(m) => if w < m {
                        Some(w)
                    } else {
                        Some(m)
                    },
                }
            } else {
                rest
            }
        }),
{
    let t = routes.take(j + 1);
    assert(t.drop_last() =~= routes.take(j));
    assert(t.last() == routes[j]);
}

/// The rows that survive replacing the `(dest, origin)` rows.
pub open spec fn adv_kept(dest: Seq<char>, origin: Seq<char>) -> spec_fn(Route) -> bool {
    |r: Route| !pair_matches(r, dest, origin)
}

/// What one advertised row does to the table.  A row toward this node
/// itself, or whose counted weight cannot be bumped, changes nothing.
/// Otherwise the candidate (through the advertisement's sender, one
/// heavier) is inserted when no row with its (destination, gateway) pair
/// exists, and replaces all such rows when strictly lighter than their
/// minimum.
pub open spec fn apply_advertised_route(
    routes: Seq<Route>,
    adv: Route,
    origin: String,
    local: Seq<char>,
) -> Seq<Route> {
    if adv.destination_id@ == local || adv_base_weight(adv.weight) == usize::MAX {
        routes
    } else {
        let base = adv_base_weight(adv.weight);
        let cand = Route {
            gateway_id: origin,
            destination_id: adv.destination_id,
            weight: Some((base + 1) as usize),
        };
        match spec_min_weight(routes, adv.destination_id@, origin@) {
            None => routes.push(cand),
            Some(m) => if base + 1 < m {
                filter_map(routes, adv_kept(adv.destination_id@, origin@), |r: Route| r).push(cand)
            } else {
                routes
            },
        }
    }
}

/// What a whole advertisement does to the table: its rows applied in
/// order.
pub open spec fn apply_advertisement(
    routes: Seq<Route>,
    advertised: Seq<Route>,
    origin: String,
    local: Seq<char>,
) -> Seq<Route>
    decreases advertised.len(),
{
    if advertised.len() == 0 {
        routes
    } else {
        apply_advertised_route(
            apply_advertisement(routes, advertised.drop_last(), origin, local),
            advertised.last(),
            origin,
            local,
        )
    }
}

/// Applying one more advertised row continues from the table so far.
pub proof fn lemma_apply_take_step(
    routes0: Seq<Route>,
    advertised: Seq<Route>,
    i: int,
    origin: String,
    local: Seq<char>,
)
    requires
        0 <= i < advertised.len(),
    ensures
        apply_advertisement(routes0, advertised.take(i + 1), origin, local)
            == apply_advertised_route(
            apply_advertisement(routes0, advertised.take(i), origin, local),
            advertised[i],
            origin,
            local,
        ),
{
    let t = advertised.take(i + 1);
    assert(t.drop_last() =~= advertised.take(i));
    assert(t.last() == advertised[i]);
}

/// One advertised row keeps the table invariant: the candidate never
/// targets this node, and rows toward this node are never removed.
pub proof fn lemma_apply_one_wf(routes: Seq<Route>, adv: Route, origin: String, local: Seq<char>)
    ensures
        routes_pair_unique(routes) ==> routes_pair_unique(
            apply_advertised_route(routes, adv, origin, local),
        ),
        route_table_wf(routes, local) ==> route_table_wf(
            apply_advertised_route(routes, adv, origin, local),
            local,
        ),
{
    let out = apply_advertised_route(routes, adv, origin, local);
    if adv.destination_id@ == local || adv_base_weight(adv.weight) == usize::MAX {
    } else {
        let dest = adv.destination_id@;
        let base = adv_base_weight(adv.weight);
        let cand = Route {
            gateway_id: origin,
            destination_id: adv.destination_id,
            weight: Some((base + 1) as usize),
        };
        let keep = adv_kept(dest, origin@);
        let fid = |r: Route| r;
        match spec_min_weight(routes, dest, origin@) {
            None => {
                lemma_min_weight_none(routes, dest, origin@);
                if routes_pair_unique(routes) {
                    assert forall|i: int, j: int| 0 <= i < j < out.len() implies !(
                    #[trigger] out[i].destination_id@ == #[trigger] out[j].destination_id@
                        && out[i].gateway_id@ == out[j].gateway_id@) by {
                        if j == out.len() - 1 {
                            assert(out[i] == routes[i]);
                            assert(!pair_matches(routes[i], dest, origin@));
                        }
                    }
                }
                if route_table_wf(routes, local) {
                    let si = choose|si: int|
                        0 <= si < routes.len() && is_self_route(#[trigger] routes[si], local);
                    assert(out[si] == routes[si]);
                    assert(is_self_route(out[si], local));
                }
            },
            Some(m) => {
                if base + 1 < m {
                    let filtered = filter_map(routes, keep, fid);
                    if routes_pair_unique(routes) {
                        lemma_filtered_pair_unique(routes, filtered, keep, fid);
                        assert forall|i: int, j: int| 0 <= i < j < out.len() implies !(
                        #[trigger] out[i].destination_id@ == #[trigger] out[j].destination_id@
                            && out[i].gateway_id@ == out[j].gateway_id@) by {
                            if j == out.len() - 1 {
                                crate::seq_util::lemma_filter_map_src(routes, keep, fid, i);
                                let s = crate::seq_util::filter_map_src(routes, keep, i);
                                assert(out[i] == routes[s]);
                                assert(!pair_matches(routes[s], dest, origin@));
                            } else {
                                assert(out[i] == filtered[i] && out[j] == filtered[j]);
                            }
                        }
                    }
                    if route_table_wf(routes, local) {
                        lemma_filtered_table_wf(routes, filtered, keep, fid, local);
                        let si = choose|si: int|
                            0 <= si < filtered.len() && is_self_route(#[trigger] filtered[si], local);
                        assert(out[si] == filtered[si]);
                        assert(is_self_route(out[si], local));
                        assert forall|k: int|
                            0 <= k < out.len() && (#[trigger] out[k]).destination_id@ == local
                                && out[k].gateway_id@ == local implies out[k].weight is None by {
                            if k < filtered.len() {
                                assert(out[k] == filtered[k]);
                            } else {
                                assert(out[k] == cand);
                                assert(cand.destination_id@ == dest);
                            }
                        }
                    }
                }
            },
        }
    }
}

/// A learned route is at most one hop heavier than advertised: once an
/// advertised row toward `d` — not this node, and light enough to bump —
/// from neighbor `origin` is applied, the table holds a row toward `d`
/// through `origin` whose counted weight is at most the advertised
/// weight plus one.
pub proof fn lemma_apply_one_bounds_weight(
    routes: Seq<Route>,
    adv: Route,
    origin: String,
    local: Seq<char>,
)
    requires
        adv.destination_id@ != local,
        adv_base_weight(adv.weight) < usize::MAX,
    ensures
        ({
            let out = apply_advertised_route(routes, adv, origin, local);
            spec_min_weight(out, adv.destination_id@, origin@) matches Some(m) && m
                <= adv_base_weight(adv.weight) + 1
        }),
{
    let base = adv_base_weight(adv.weight);
    let cand = Route {
        gateway_id: origin,
        destination_id: adv.destination_id,
        weight: Some((base + 1) as usize),
    };
    match spec_min_weight(routes, adv.destination_id@, origin@) {
        None => {
            let s = routes.push(cand);
            assert(s.drop_last() =~= routes);
            assert(s.last() == cand);
        },
        Some(m) => {
            if base + 1 < m {
                let kept = filter_map(
                    routes,
                    adv_kept(adv.destination_id@, origin@),
                    |r: Route| r,
                );
                let s = kept.push(cand);
                assert(s.drop_last() =~= kept);
                assert(s.last() == cand);
            }
        },
    }
}

/// A whole advertisement keeps the table invariant.
pub proof fn lemma_apply_wf(
    routes: Seq<Route>,
    advertised: Seq<Route>,
    origin: String,
    local: Seq<char>,
)
    ensures
        routes_pair_unique(routes) ==> routes_pair_unique(
            apply_advertisement(routes, advertised, origin, local),
        ),
        route_table_wf(routes, local) ==> route_table_wf(
            apply_advertisement(routes, advertised, origin, local),
            local,
        ),
    decreases advertised.len(),
{
    if advertised.len() > 0 {
        lemma_apply_wf(routes, advertised.drop_last(), origin, local);
        lemma_apply_one_wf(
            apply_advertisement(routes, advertised.drop_last(), origin, local),
            advertised.last(),
            origin,
            local,
        );
    }
}

impl RouteAdvertisement {
    /// Build an advertisement from a route table snapshot.
    pub fn from_routes(routes: Vec<Route>) -> (r: Self)
        ensures
            r.routes@ == routes@,
    {
        RouteAdvertisement { routes }
    }

    /// Apply an advertisement received from `origin_id`: learn each
    /// advertised row one weight heavier through that neighbor, per
    /// `apply_advertisement`.  The table invariant is preserved.
    pub fn process(&self, singleton: &mut Singleton, origin_id: &String)
        ensures
            final(singleton).routes@ == apply_advertisement(
                old(singleton).routes@,
                self.routes@,
                *origin_id,
                old(singleton).configuration.id@,
            ),
            final(singleton).configuration == old(singleton).configuration,
            final(singleton).peers@ == old(singleton).peers@,
            final(singleton).backlog@ == old(singleton).backlog@,
            final(singleton).tickets@ == old(singleton).tickets@,
            final(singleton).traces@ == old(singleton).traces@,
            final(singleton).broadcasts@ == old(singleton).broadcasts@,
            final(singleton).broadcast_history@ == old(singleton).broadcast_history@,
            routes_pair_unique(old(singleton).routes@) ==> routes_pair_unique(
                final(singleton).routes@,
            ),
            route_table_wf(old(singleton).routes@, old(singleton).configuration.id@)
                ==> route_table_wf(final(singleton).routes@, final(singleton).configuration.id@),
    {
        let ghost routes0 = singleton.routes@;
        let ghost local = singleton.configuration.id@;
        let mut i: usize = 0;
        while i < self.routes.len()
            invariant
                0 <= i <= self.routes.len(),
                singleton.configuration == old(singleton).configuration,
                local == singleton.configuration.id@,
                routes0 == old(singleton).routes@,
                singleton.peers@ == old(singleton).peers@,
                singleton.backlog@ == old(singleton).backlog@,
                singleton.tickets@ == old(singleton).tickets@,
                singleton.traces@ == old(singleton).traces@,
                singleton.broadcasts@ == old(singleton).broadcasts@,
                singleton.broadcast_history@ == old(singleton).broadcast_history@,
                singleton.routes@ == apply_advertisement(
                    routes0,
                    self.routes@.take(i as int),
                    *origin_id,
                    local,
                ),
            decreases self.routes.len() - i,
        {
            proof {
                lemma_apply_take_step(routes0, self.routes@, i as int, *origin_id, local);
            }
            let adv = &self.routes[i];
            let toward_self = adv.destination_id == singleton.configuration.id;
            let base = match adv.weight {
                None => 0usize,
                Some(w) => w,
            };
            if !toward_self && base < usize::MAX {
                self.apply_one(singleton, origin_id, i, base);
            }
            i = i + 1;
        }
        proof {
            assert(self.routes@.take(self.routes@.len() as int) =~= self.routes@);
            lemma_apply_wf(routes0, self.routes@, *origin_id, local);
        }
    }

    /// Apply advertised row `i`, already known not to target this node
    /// and to have a bumpable counted weight.
    fn apply_one(&self, singleton: &mut Singleton, origin_id: &String, i: usize, base: usize)
        requires
            i < self.routes@.len(),
            base == adv_base_weight(self.routes@[i as int].weight),
            base < usize::MAX,
            self.routes@[i as int].destination_id@ != old(singleton).configuration.id@,
        ensures
            final(singleton).routes@ == apply_advertised_route(
                old(singleton).routes@,
                self.routes@[i as int],
                *origin_id,
                old(singleton).configuration.id@,
            ),
            final(singleton).configuration == old(singleton).configuration,
            final(singleton).peers@ == old(singleton).peers@,
            final(singleton).backlog@ == old(singleton).backlog@,
            final(singleton).tickets@ == old(singleton).tickets@,
            final(singleton).traces@ == old(singleton).traces@,
            final(singleton).broadcasts@ == old(singleton).broadcasts@,
            final(singleton).broadcast_history@ == old(singleton).broadcast_history@,
    {
        let adv = &self.routes[i];
        let ghost dest = adv.destination_id@;
        let ghost origin = origin_id@;
        let ghost old_routes = singleton.routes@;

        let mut cur_min: Option<usize> = None;
        let mut j: usize = 0;
        while j < singleton.routes.len()
            invariant
                0 <= j <= singleton.routes.len(),
                *singleton == *old(singleton),
                                i < self.routes@.len(),
                adv == &self.routes[i as int],
                dest == adv.destination_id@,
                origin == origin_id@,
                old_routes == singleton.routes@,
                cur_min == spec_min_weight(old_routes.take(j as int), dest, origin),
            decreases singleton.routes.len() - j,
        {
            proof {
                lemma_min_weight_take_step(old_routes, dest, origin, j as int);
            }
            let r = &singleton.routes[j];
            let row_matches = r.destination_id == adv.destination_id && r.gateway_id
                == *origin_id;
            if row_matches {
                let w = match r.weight {
                    None => 0usize,
                    Some(x) => x,
                };
                cur_min = match cur_min {
                    None => Some(w),
                    Some(m) => if w < m {
                        Some(w)
                    } else {
                        Some(m)
                    },
                };
            }
            j = j + 1;
        }
        proof {
            assert(old_routes.take(old_routes.len() as int) =~= old_routes);
        }

        let cand = Route {
            gateway_id: origin_id.clone(),
            destination_id: adv.destination_id.clone(),
            weight: Some(base + 1),
        };
        match cur_min {
            None => {
                singleton.routes.push(cand);
            },
            Some(m) => {
                if base + 1 < m {
                    let ghost keep = adv_kept(dest, origin);
                    let ghost fid = |r: Route| r;
                    let mut kept: Vec<Route> = Vec::new();
                    let mut k: usize = 0;
                    while k < singleton.routes.len()
                        invariant
                            0 <= k <= singleton.routes.len(),
                            *singleton == *old(singleton),
                                                        i < self.routes@.len(),
                            adv == &self.routes[i as int],
                            dest == adv.destination_id@,
                            origin == origin_id@,
                            old_routes == singleton.routes@,
                            keep == adv_kept(dest, origin),
                            fid == (|r: Route| r),
                            kept@ == filter_map(old_routes.take(k as int), keep, fid),
                        decreases singleton.routes.len() - k,
                    {
                        proof {
                            lemma_filter_map_take_step(old_routes, keep, fid, k as int);
                        }
                        let r = &singleton.routes[k];
                        let hit = r.destination_id == adv.destination_id && r.gateway_id
                            == *origin_id;
                        if !hit {
                            let copy = singleton.routes[k].clone();
                            kept.push(copy);
                        }
                        proof {
                            assert(kept@ =~= filter_map(old_routes.take(k + 1 as int), keep, fid));
                        }
                        k = k + 1;
                    }
                    proof {
                        assert(old_routes.take(old_routes.len() as int) =~= old_routes);
                    }
                    kept.push(cand);
                    singleton.routes = kept;
                }
            },
        }
    }
}

} // verus!
