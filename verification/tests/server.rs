use gossip::Graph;
use gossip::Health;
use gossip::State;

#[test]
fn default_graph() {
    let g = Graph::new();
    assert_eq!(g.is_spanning(), false);
    assert_eq!(g.vertex_count(), 0);
}

#[test]
fn default_state() {
    let s = State::new(1);
    assert_eq!(s.view.eager_len(), 0);
    assert_eq!(s.view.lazy_len(), 0);
    assert_eq!(s.log.len(), 0);
    assert_eq!(s.health, Health::Yellow);
}

#[test]
fn node_identity_keeps_address() {
    let n = gossip::Node::new("127.0.0.1", 7888);
    assert_eq!(n.addr.ip, "127.0.0.1");
    assert_eq!(n.addr.port, 7888);
}
