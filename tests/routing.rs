use blazar::com::{Config, ProxyConfig, SliceConfig};
use blazar::frame::Frame;
use blazar::proxy::{decide, Action, ClientState};
use blazar::route::{hash_key, route, shard_for};
use blazar::session::{reply_for, Session, Shards};

fn cmd(parts: &[&[u8]]) -> Frame {
    Frame::Array(parts.iter().map(|p| Frame::Bulk(p.to_vec())).collect())
}

#[test]
fn fnv_values() {
    assert_eq!(hash_key(b""), 0xcbf29ce484222325);
    assert_eq!(hash_key(b"a"), 0xaf63dc4c8601ec8c);
    assert_eq!(hash_key(b"foobar"), 0x85944171f73967e8);
}

#[test]
fn routing_is_deterministic() {
    for n in 1..8usize {
        for key in [&b"hello"[..], b"foo", b"", b"user:42"] {
            let a = shard_for(key, n);
            assert_eq!(a, shard_for(key, n));
            assert!(a < n);
            assert_eq!(a as u64, hash_key(key) % n as u64);
        }
    }
    assert_eq!(shard_for(b"a", 3), (0xaf63dc4c8601ec8cu64 % 3) as usize);
    assert_eq!(route(&cmd(&[b"GET", b"a"]), 3), shard_for(b"a", 3));
    assert_eq!(route(&cmd(&[b"PING"]), 3), 0);
    assert_eq!(route(&Frame::Integer(1), 3), 0);
}

#[test]
fn session_keeps_order() {
    let mut s = Session::new();
    s.submit(1);
    s.submit(2);
    assert_eq!(s.start_next(), Some(1));
    assert_eq!(s.start_next(), None);
    assert_eq!(s.finish(), Some(1));
    assert_eq!(s.start_next(), Some(2));
    assert_eq!(s.finish(), Some(2));
    assert_eq!(s.finish(), None);
}

#[test]
fn failing_shard_leaves_others_alone() {
    let mut shards = Shards::new(2);
    shards.submit(0, 10);
    shards.submit(1, 20);
    assert_eq!(shards.start_next(0), Some(10));
    assert_eq!(shards.start_next(1), Some(20));
    assert_eq!(shards.finish(0), Some(10));
    assert_eq!(reply_for(None), Frame::Error("ERR backend unavailable".to_string()));
    assert_eq!(shards.sessions[1].in_flight, Some(20));
    assert_eq!(shards.finish(1), Some(20));
    assert_eq!(reply_for(Some(Frame::SImple("OK".to_string()))), Frame::SImple("OK".to_string()));
}

#[test]
fn auth_then_forward() {
    let (st, act) = decide(ClientState::Authenticating, &cmd(&[b"auth", b"pw"]), b"pw", 2);
    assert_eq!(st, ClientState::Ready);
    assert!(matches!(act, Action::Reply(Frame::SImple(ref t)) if t == "OK"));
    let get = cmd(&[b"GET", b"k"]);
    let (st2, act2) = decide(st, &get, b"pw", 2);
    assert_eq!(st2, ClientState::Ready);
    assert!(matches!(act2, Action::Forward(k) if k == shard_for(b"k", 2)));
}

#[test]
fn auth_failures_close() {
    let (st, act) = decide(ClientState::Authenticating, &cmd(&[b"GET", b"k"]), b"pw", 2);
    assert_eq!(st, ClientState::Closed);
    assert!(matches!(act, Action::Close(Frame::Error(_))));
    let (st, act) = decide(ClientState::Authenticating, &cmd(&[b"AUTH", b"no"]), b"pw", 2);
    assert_eq!(st, ClientState::Closed);
    assert!(matches!(act, Action::Close(Frame::Error(_))));
    let (st, act) = decide(ClientState::Ready, &cmd(&[b"AUTH", b"no"]), b"pw", 2);
    assert_eq!(st, ClientState::Ready);
    assert!(matches!(act, Action::Reply(Frame::Error(_))));
}

#[test]
fn config_needs_a_slice() {
    let proxy = ProxyConfig {
        proxy_ip: "127.0.0.1".to_string(),
        proxy_port: "6380".to_string(),
        redis_auth: "pw".to_string(),
    };
    let mut c = Config { proxy, slice: vec![] };
    assert!(!c.is_routable());
    c.slice.push(SliceConfig { master: "127.0.0.1:6379".to_string() });
    assert!(c.is_routable());
}
