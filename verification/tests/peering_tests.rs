use stembot::config::Configuration;
use stembot::config::PrivateHttp;
use stembot::config::PublicHttp;
use stembot::peering::initialize_peers;
use stembot::peering::lookup_peer_url;
use stembot::peering::record_peer_origin;
use stembot::peering::touch_peer;
use stembot::peering::Peer;
use stembot::state::Singleton;

fn test_configuration(id: &str) -> Configuration {
    Configuration {
        id: id.to_string(),
        peer: vec![
            Peer { id: None, url: Some("http://b".to_string()), polling: true },
            Peer { id: Some("ghost".to_string()), url: None, polling: false },
        ],
        ping: Vec::new(),
        trace: Vec::new(),
        maxrouteweight: 16,
        loglevel: "warn".to_string(),
        public_http: PublicHttp {
            secret: "SECRET-REDACTED".to_string(),
            tracing: false,
            host: "127.0.0.1".to_string(),
            port: 8080,
            endpoint: "/api".to_string(),
        },
        private_http: PrivateHttp {
            tracing: false,
            host: "127.0.0.1".to_string(),
            port: 8090,
            ticket_sync_endpoint: "/sync".to_string(),
            ticket_async_endpoint: "/async".to_string(),
        },
        ticketexpiration: 1000,
        broadcastexpiration: 1000,
        backlog_period: 10,
    }
}

#[test]
fn initialize_peers_seeds_only_dialable_rows() {
    let mut s = Singleton::new(test_configuration("a"));
    initialize_peers(&mut s);
    assert_eq!(s.peers.len(), 1);
    assert_eq!(s.peers[0].url, Some("http://b".to_string()));
    assert_eq!(s.peers[0].id, None);
    assert!(s.peers[0].polling);
}

#[test]
fn lookup_returns_the_first_dialable_row_with_the_id() {
    let mut s = Singleton::new(test_configuration("a"));
    s.peers.push(Peer { id: Some("b".to_string()), url: None, polling: false });
    s.peers.push(Peer {
        id: Some("b".to_string()),
        url: Some("http://b1".to_string()),
        polling: false,
    });
    s.peers.push(Peer {
        id: Some("b".to_string()),
        url: Some("http://b2".to_string()),
        polling: false,
    });
    assert_eq!(lookup_peer_url(&"b".to_string(), &s), Some("http://b1".to_string()));
    assert_eq!(lookup_peer_url(&"x".to_string(), &s), None);
}

#[test]
fn touch_peer_adds_an_id_only_once() {
    let mut s = Singleton::new(test_configuration("a"));
    touch_peer(&"b".to_string(), &mut s);
    assert_eq!(s.peers.len(), 1);
    assert_eq!(s.peers[0].id, Some("b".to_string()));
    assert_eq!(s.peers[0].url, None);
    touch_peer(&"b".to_string(), &mut s);
    assert_eq!(s.peers.len(), 1);
}

#[test]
fn record_peer_origin_stamps_every_row_at_the_endpoint() {
    let mut s = Singleton::new(test_configuration("a"));
    initialize_peers(&mut s);
    record_peer_origin(&mut s, &"http://b".to_string(), &"b".to_string());
    assert_eq!(s.peers[0].id, Some("b".to_string()));
    record_peer_origin(&mut s, &"http://zzz".to_string(), &"z".to_string());
    assert_eq!(s.peers[0].id, Some("b".to_string()));
}
