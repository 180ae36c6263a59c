use stembot::config::Configuration;
use stembot::config::PrivateHttp;
use stembot::config::PublicHttp;
use stembot::peering::Peer;
use stembot::routing::age_routes;
use stembot::routing::initialize_routes;
use stembot::routing::remove_routes_by_gateway_and_destination;
use stembot::routing::remove_routes_by_url;
use stembot::routing::resolve_gateway_id;
use stembot::routing::Route;
use stembot::routing::RouteAdvertisement;
use stembot::state::Singleton;

pub fn test_configuration(id: &str, maxrouteweight: usize) -> Configuration {
    Configuration {
        id: id.to_string(),
        peer: Vec::new(),
        ping: Vec::new(),
        trace: Vec::new(),
        maxrouteweight,
        loglevel: "warn".to_string(),
        ticketexpiration: 1000,
        public_http: PublicHttp {
            secret: "SECRET-REDACTED".to_string(),
            tracing: false,
            host: "127.0.0.1".to_string(),
            port: 8080,
            endpoint: "/api".to_string(),
        },
        private_http: PrivateHttp {
            tracing: false,
            host: "127.0.0.1".to_string(),
            port: 8090,
            ticket_sync_endpoint: "/sync".to_string(),
            ticket_async_endpoint: "/async".to_string(),
        },
        broadcastexpiration: 1000,
        backlog_period: 10,
    }
}

pub fn node(id: &str) -> Singleton {
    let mut s = Singleton::new(test_configuration(id, 16));
    initialize_routes(&mut s);
    s
}

fn route(dest: &str, gw: &str, weight: Option<usize>) -> Route {
    Route {
        gateway_id: gw.to_string(),
        destination_id: dest.to_string(),
        weight,
    }
}

#[test]
fn initialize_routes_seeds_self_route() {
    let s = node("a");
    assert_eq!(s.routes.len(), 1);
    assert_eq!(s.routes[0].destination_id, "a");
    assert_eq!(s.routes[0].gateway_id, "a");
    assert!(s.routes[0].weight.is_none());
}

#[test]
fn resolve_picks_minimum_weight() {
    let mut s = node("a");
    s.routes.push(route("e", "b", Some(4)));
    s.routes.push(route("e", "c", Some(2)));
    s.routes.push(route("e", "d", Some(3)));
    let gw = resolve_gateway_id(&"e".to_string(), &s);
    assert_eq!(gw, Some("c".to_string()));
}

#[test]
fn resolve_breaks_ties_by_first_occurrence() {
    let mut s = node("a");
    s.routes.push(route("e", "b", Some(2)));
    s.routes.push(route("e", "c", Some(2)));
    let gw = resolve_gateway_id(&"e".to_string(), &s);
    assert_eq!(gw, Some("b".to_string()));
}

#[test]
fn resolve_none_weight_wins_over_any_some() {
    let mut s = node("a");
    s.routes.push(route("a", "b", Some(0)));
    let gw = resolve_gateway_id(&"a".to_string(), &s);
    assert_eq!(gw, Some("a".to_string()));
}

#[test]
fn resolve_unknown_destination_is_none() {
    let s = node("a");
    assert_eq!(resolve_gateway_id(&"zzz".to_string(), &s), None);
}

#[test]
fn age_routes_bumps_and_keeps_cap() {
    let mut s = node("a");
    s.configuration.maxrouteweight = 3;
    s.routes.push(route("b", "b", Some(1)));
    s.routes.push(route("c", "b", Some(3)));
    age_routes(&mut s);
    assert_eq!(s.routes.len(), 2);
    assert!(s.routes[0].weight.is_none());
    assert_eq!(s.routes[1].destination_id, "b");
    assert_eq!(s.routes[1].weight, Some(2));
}

#[test]
fn age_routes_with_zero_cap_evicts_every_finite_route() {
    let mut s = node("a");
    s.configuration.maxrouteweight = 0;
    s.routes.push(route("b", "b", Some(0)));
    s.routes.push(route("c", "b", Some(5)));
    age_routes(&mut s);
    assert_eq!(s.routes.len(), 1);
    assert!(s.routes[0].weight.is_none());
}

#[test]
fn advertisement_inserts_new_routes_one_heavier() {
    let mut s = node("a");
    let adv = RouteAdvertisement {
        routes: vec![
            route("b", "b", None),
            route("c", "b", Some(1)),
            route("a", "b", Some(1)),
        ],
    };
    adv.process(&mut s, &"b".to_string());
    // self route, b at weight 1, c at weight 2; the row toward a itself is ignored
    assert_eq!(s.routes.len(), 3);
    assert_eq!(s.routes[1].destination_id, "b");
    assert_eq!(s.routes[1].gateway_id, "b");
    assert_eq!(s.routes[1].weight, Some(1));
    assert_eq!(s.routes[2].destination_id, "c");
    assert_eq!(s.routes[2].weight, Some(2));
}

#[test]
fn advertisement_replaces_only_strictly_lighter() {
    let mut s = node("a");
    s.routes.push(route("c", "b", Some(5)));
    let lighter = RouteAdvertisement { routes: vec![route("c", "x", Some(1))] };
    lighter.process(&mut s, &"b".to_string());
    assert_eq!(s.routes.len(), 2);
    assert_eq!(s.routes[1].destination_id, "c");
    assert_eq!(s.routes[1].weight, Some(2));

    let heavier = RouteAdvertisement { routes: vec![route("c", "x", Some(9))] };
    heavier.process(&mut s, &"b".to_string());
    assert_eq!(s.routes.len(), 2);
    assert_eq!(s.routes[1].weight, Some(2));
}

#[test]
fn advertisement_keeps_one_row_per_pair() {
    let mut s = node("a");
    let adv = RouteAdvertisement { routes: vec![route("c", "x", Some(3))] };
    adv.process(&mut s, &"b".to_string());
    adv.process(&mut s, &"b".to_string());
    let mut count = 0;
    for r in &s.routes {
        if r.destination_id == "c" && r.gateway_id == "b" {
            count += 1;
        }
    }
    assert_eq!(count, 1);
}

#[test]
fn remove_by_gateway_and_destination_hits_only_the_pair() {
    let mut s = node("a");
    s.routes.push(route("c", "b", Some(1)));
    s.routes.push(route("c", "d", Some(2)));
    s.routes.push(route("e", "b", Some(1)));
    remove_routes_by_gateway_and_destination(&"b".to_string(), &"c".to_string(), &mut s);
    assert_eq!(s.routes.len(), 3);
    for r in &s.routes {
        assert!(!(r.destination_id == "c" && r.gateway_id == "b"));
    }
}

#[test]
fn remove_by_url_spares_the_self_route() {
    let mut s = node("a");
    s.peers.push(Peer {
        id: Some("b".to_string()),
        url: Some("http://b".to_string()),
        polling: false,
    });
    s.routes.push(route("b", "b", Some(1)));
    s.routes.push(route("b", "x", Some(2)));
    s.routes.push(route("c", "b", Some(2)));
    remove_routes_by_url(&"http://b".to_string(), &mut s);
    // the row toward b through x goes; the self route, the row whose
    // destination equals its gateway, and the row toward c stay
    assert_eq!(s.routes.len(), 3);
    assert_eq!(s.routes[0].destination_id, "a");
    assert_eq!(s.routes[1].destination_id, "b");
    assert_eq!(s.routes[1].gateway_id, "b");
    assert_eq!(s.routes[2].destination_id, "c");
}
