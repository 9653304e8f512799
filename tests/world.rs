use world_coord::msgs::{NodeConnected, NodeSupportedTypes, RegisterRecipient, WorkerDisconnected};
use world_coord::world::{BindError, NodeAction, Phase, ProxySlot, RecipientError, Shutdown, Signal, World};

fn s(x: &str) -> String {
    x.to_string()
}

fn announce(node: &str, types: &[&str]) -> NodeSupportedTypes {
    NodeSupportedTypes { node: s(node), types: types.iter().map(|t| s(t)).collect() }
}

fn started_world() -> World {
    let mut w = World::new(s("127.0.0.1:0"));
    assert!(w.start().is_some());
    w
}

#[test]
fn accepted_connection_is_registered_then_removed() {
    let w = World::new(s("local"));
    let mut w = w.bind(vec![Ok(s("127.0.0.1:41000"))]).unwrap();
    let st = w.start().unwrap();
    assert_eq!(st.listeners, vec![s("127.0.0.1:41000")]);
    assert!(st.nodes.is_empty());
    assert_eq!(w.worker_count(), 0);
    assert_eq!(w.connection_accepted(), Some(1));
    assert_eq!(w.worker_count(), 1);
    assert!(!w.worker_disconnected(WorkerDisconnected(1)));
    assert_eq!(w.worker_count(), 0);
}

#[test]
fn configured_node_reconnects_instead_of_spawning() {
    let w = World::new(s("local")).add_node(Some(s("peer-a")));
    let mut w = w;
    let st = w.start().unwrap();
    assert_eq!(st.nodes.len(), 1);
    assert!(matches!(&st.nodes[0], NodeAction::Spawn(n) if n == "peer-a"));
    assert!(w.has_node(&s("peer-a")));
    let a = w.node_connected(NodeConnected(s("peer-a")));
    assert!(matches!(&a, NodeAction::Reconnect(n) if n == "peer-a"));
    let b = w.node_connected(NodeConnected(s("peer-a")));
    assert!(matches!(&b, NodeAction::Reconnect(n) if n == "peer-a"));
    assert!(w.has_node(&s("peer-a")));
}

#[test]
fn unknown_node_spawns_once() {
    let mut w = started_world();
    assert!(!w.has_node(&s("peer-b")));
    let a = w.node_connected(NodeConnected(s("peer-b")));
    assert!(matches!(&a, NodeAction::Spawn(n) if n == "peer-b"));
    let b = w.node_connected(NodeConnected(s("peer-b")));
    assert!(matches!(&b, NodeAction::Reconnect(n) if n == "peer-b"));
}

#[test]
fn add_node_none_and_repeated() {
    let mut w = World::new(s("local")).add_node(None).add_node(Some(s("p"))).add_node(Some(s("p")));
    let st = w.start().unwrap();
    assert_eq!(st.nodes.len(), 1);
}

#[test]
fn recipient_is_memoized_per_type() {
    let mut w = World::new(s("local"));
    let a = w.get_recipient(s("PingMsg"), s("app::PingMsg"));
    let b = w.get_recipient(s("PingMsg"), s("app::PingMsg"));
    assert_eq!(a, Ok(ProxySlot { id: 0, created: true }));
    assert_eq!(b, Ok(ProxySlot { id: 0, created: false }));
    let c = w.get_recipient(s("PongMsg"), s("app::PongMsg"));
    assert_eq!(c, Ok(ProxySlot { id: 1, created: true }));
}

#[test]
fn recipient_type_mismatch_fails() {
    let mut w = World::new(s("local"));
    assert!(w.get_recipient(s("PingMsg"), s("app::PingMsg")).is_ok());
    assert_eq!(w.get_recipient(s("PingMsg"), s("other::Ping")), Err(RecipientError::TypeMismatch));
    assert_eq!(w.get_recipient(s("PingMsg"), s("app::PingMsg")), Ok(ProxySlot { id: 0, created: false }));
}

#[test]
fn announcement_before_proxy_then_after() {
    let mut w = started_world();
    w.node_connected(NodeConnected(s("peer-a")));
    let n = w.node_supported_types(announce("peer-a", &["PingMsg"]));
    assert!(n.is_empty());
    assert!(w.supports(&s("PingMsg"), &s("peer-a")));
    let p = w.get_recipient(s("PingMsg"), s("app::PingMsg")).unwrap();
    let n = w.node_supported_types(announce("peer-a", &["PingMsg"]));
    assert_eq!(n.len(), 1);
    assert_eq!(n[0].proxy, p.id);
    assert_eq!(n[0].type_id, "PingMsg");
    assert_eq!(n[0].node_id, "peer-a");
}

#[test]
fn announcement_from_unlinked_node_is_recorded_without_notice() {
    let mut w = started_world();
    w.get_recipient(s("PingMsg"), s("app::PingMsg")).unwrap();
    let n = w.node_supported_types(announce("ghost", &["PingMsg"]));
    assert!(n.is_empty());
    assert!(w.supports(&s("PingMsg"), &s("ghost")));
}

#[test]
fn notices_follow_announced_order() {
    let mut w = started_world();
    w.node_connected(NodeConnected(s("n")));
    w.get_recipient(s("B"), s("b")).unwrap();
    w.get_recipient(s("A"), s("a")).unwrap();
    let n = w.node_supported_types(announce("n", &["A", "X", "B"]));
    assert_eq!(n.len(), 2);
    assert_eq!((n[0].proxy, n[0].type_id.as_str()), (1, "A"));
    assert_eq!((n[1].proxy, n[1].type_id.as_str()), (0, "B"));
}

#[test]
fn support_converges_in_any_order() {
    let mut a = World::new(s("local"));
    let mut b = World::new(s("local"));
    a.node_supported_types(announce("n1", &["T", "U"]));
    a.node_supported_types(announce("n2", &["T"]));
    a.node_supported_types(announce("n1", &["T"]));
    b.node_supported_types(announce("n2", &["T"]));
    b.node_supported_types(announce("n1", &["U", "T"]));
    for w in [&a, &b] {
        assert!(w.supports(&s("T"), &s("n1")));
        assert!(w.supports(&s("T"), &s("n2")));
        assert!(w.supports(&s("U"), &s("n1")));
        assert!(!w.supports(&s("U"), &s("n2")));
    }
}

#[test]
fn bind_partial_failure_is_tolerated() {
    let w = World::new(s("local"));
    let mut w = w.bind(vec![Err(s("in use")), Ok(s("[::1]:9000")), Err(s("denied"))]).unwrap();
    let st = w.start().unwrap();
    assert_eq!(st.listeners, vec![s("[::1]:9000")]);
}

#[test]
fn bind_accumulates_across_calls() {
    let w = World::new(s("local")).bind(vec![Ok(s("a:1"))]).unwrap();
    let mut w = w.bind(vec![Ok(s("b:2")), Ok(s("a:1"))]).unwrap();
    let mut ls = w.start().unwrap().listeners;
    ls.sort();
    assert_eq!(ls, vec![s("a:1"), s("b:2")]);
}

#[test]
fn bind_all_failed_returns_last_error() {
    let w = World::new(s("local"));
    let r = w.bind(vec![Err(s("first")), Err(s("second"))]);
    assert_eq!(r.err(), Some(BindError::Failed(s("second"))));
}

#[test]
fn bind_nothing_to_bind() {
    let w = World::new(s("local"));
    assert_eq!(w.bind(Vec::new()).err(), Some(BindError::NoAddress));
}

#[test]
fn start_only_once() {
    let mut w = World::new(s("local")).bind(vec![Ok(s("a:1"))]).unwrap();
    assert!(w.start().is_some());
    assert!(w.start().is_none());
}

#[test]
fn signal_without_workers_exits() {
    let mut w = started_world();
    assert!(matches!(w.signal(Signal::Int), Shutdown::ExitAfterDelay));
    assert_eq!(w.phase(), Phase::Terminating);
    assert!(matches!(w.signal(Signal::Term), Shutdown::Ignore));
    assert_eq!(w.connection_accepted(), None);
}

#[test]
fn other_signals_are_ignored() {
    let mut w = started_world();
    assert!(matches!(w.signal(Signal::Hup), Shutdown::Ignore));
    assert!(matches!(w.signal(Signal::Child), Shutdown::Ignore));
    assert_eq!(w.phase(), Phase::Running);
}

#[test]
fn drain_waits_for_every_worker() {
    let mut w = started_world();
    w.connection_accepted();
    w.connection_accepted();
    match w.signal(Signal::Quit) {
        Shutdown::StopWorkers(ws) => assert_eq!(ws, vec![1, 2]),
        _ => panic!("expected stop instructions"),
    }
    assert_eq!(w.phase(), Phase::Draining);
    assert!(matches!(w.signal(Signal::Int), Shutdown::Ignore));
    assert!(!w.worker_disconnected(WorkerDisconnected(2)));
    assert_eq!(w.phase(), Phase::Draining);
    assert!(!w.worker_disconnected(WorkerDisconnected(7)));
    assert_eq!(w.phase(), Phase::Draining);
    assert!(w.worker_disconnected(WorkerDisconnected(1)));
    assert_eq!(w.phase(), Phase::Terminating);
    assert_eq!(w.worker_count(), 0);
    assert!(!w.worker_disconnected(WorkerDisconnected(1)));
}

#[test]
fn connection_ids_are_never_reused() {
    let mut w = started_world();
    assert_eq!(w.connection_accepted(), Some(1));
    assert_eq!(w.connection_accepted(), Some(2));
    assert_eq!(w.connection_accepted(), Some(3));
    w.worker_disconnected(WorkerDisconnected(3));
    w.worker_disconnected(WorkerDisconnected(2));
    assert_eq!(w.connection_accepted(), Some(4));
    assert_eq!(w.worker_count(), 2);
}

#[test]
fn registered_handler_goes_to_every_worker() {
    let mut w = started_world();
    assert!(w.register_recipient(RegisterRecipient(s("PingMsg"), 9)).is_empty());
    w.connection_accepted();
    w.connection_accepted();
    w.worker_disconnected(WorkerDisconnected(1));
    w.connection_accepted();
    assert_eq!(w.register_recipient(RegisterRecipient(s("PongMsg"), 10)), vec![2, 3]);
    assert!(w.has_handler(&s("PingMsg")));
    assert!(w.has_handler(&s("PongMsg")));
    assert!(!w.has_handler(&s("Other")));
}
