use gossip::Addr;
use gossip::Health;
use gossip::Node;
use gossip::ServerMsg;
use gossip::State;
use gossip::TimerKind;
use gossip::health::compute_health;

fn node(id: u128) -> Node {
    Node { id, addr: Addr::new("10.0.0.3", 9200) }
}

#[test]
fn health_formula_thresholds() {
    assert_eq!(compute_health(0, 0, false), Health::Red);
    assert_eq!(compute_health(5, 5, true), Health::Green);
    // all reachable but the graph split: degraded, not green
    assert_eq!(compute_health(5, 5, false), Health::Yellow);
    assert_eq!(compute_health(5, 3, true), Health::Yellow);
    assert_eq!(compute_health(5, 2, true), Health::Red);
    assert_eq!(compute_health(4, 3, true), Health::Yellow);
    // exactly half is not a majority
    assert_eq!(compute_health(4, 2, true), Health::Red);
    assert_eq!(compute_health(1, 1, true), Health::Green);
    assert_eq!(compute_health(1, 0, true), Health::Red);
}

// Five admitted, all reachable: Green. Two lost (3/5 is still a
// majority): Yellow. Two more lost (1/5): Red.
#[test]
fn health_monotonicity_scenario() {
    let mut state = State::with_fanout(100, 5);
    for id in [1u128, 2, 3, 4, 5] {
        state.on_peer_connected(node(id));
    }
    assert_eq!(state.health, Health::Green);

    state.handle(ServerMsg::PeerDisconnected(node(1)));
    state.handle(ServerMsg::PeerDisconnected(node(2)));
    assert_eq!(state.health, Health::Yellow);

    state.handle(ServerMsg::PeerDisconnected(node(3)));
    state.handle(ServerMsg::PeerDisconnected(node(4)));
    assert_eq!(state.health, Health::Red);
}

#[test]
fn health_recovers_on_reconnect() {
    let mut state = State::with_fanout(100, 5);
    state.on_peer_connected(node(1));
    state.on_peer_connected(node(2));
    state.on_peer_connected(node(3));
    assert_eq!(state.health, Health::Green);
    state.handle(ServerMsg::PeerDisconnected(node(1)));
    assert_eq!(state.health, Health::Yellow);
    state.handle(ServerMsg::PeerConnected(node(1)));
    assert_eq!(state.health, Health::Green);
}

#[test]
fn lazy_peers_split_the_graph() {
    // one eager slot: the second peer is lazy, so it has no topology
    // edge and the graph is not one component: never green
    let mut state = State::with_fanout(100, 1);
    state.on_peer_connected(node(1));
    state.on_peer_connected(node(2));
    state.handle(ServerMsg::TimerTick(TimerKind::HealthCheck));
    assert_eq!(state.health, Health::Yellow);
}
