use gossip::Addr;
use gossip::AdmitOutcome;
use gossip::Node;
use gossip::PeerView;
use gossip::ServerMsg;
use gossip::State;

fn node(id: u128) -> Node {
    Node { id, addr: Addr::new("10.0.0.2", 9100) }
}

fn assert_disjoint_and_no_self(v: &PeerView, self_id: u128, ids: &[u128]) {
    for id in ids {
        assert!(!(v.is_eager(*id) && v.is_lazy(*id)));
    }
    assert!(!v.contains(self_id));
}

// The set invariant holds after every operation of a mixed sequence of
// add/promote/demote/remove.
#[test]
fn set_invariant_through_operation_sequence() {
    let self_id: u128 = 100;
    let ids: Vec<u128> = vec![1, 2, 3, 4, 5, 100];
    let mut v = PeerView::new(self_id, 2);
    for id in [1u128, 2, 3, 4, 5, 100] {
        v.add_peer(node(id));
        assert_disjoint_and_no_self(&v, self_id, &ids);
    }
    v.demote(1);
    assert_disjoint_and_no_self(&v, self_id, &ids);
    v.promote(3);
    assert_disjoint_and_no_self(&v, self_id, &ids);
    v.promote(1);
    assert_disjoint_and_no_self(&v, self_id, &ids);
    v.remove(2);
    assert_disjoint_and_no_self(&v, self_id, &ids);
    v.demote(3);
    assert_disjoint_and_no_self(&v, self_id, &ids);
    v.remove(3);
    assert_disjoint_and_no_self(&v, self_id, &ids);
    v.add_peer(node(2));
    assert_disjoint_and_no_self(&v, self_id, &ids);
}

#[test]
fn admit_fills_eager_then_lazy() {
    let mut v = PeerView::new(0, 2);
    assert_eq!(v.add_peer(node(1)), AdmitOutcome::Eager);
    assert_eq!(v.add_peer(node(2)), AdmitOutcome::Eager);
    assert_eq!(v.add_peer(node(3)), AdmitOutcome::Lazy);
    assert_eq!(v.eager_len(), 2);
    assert_eq!(v.lazy_len(), 1);
}

#[test]
fn admit_rejects_self_and_members() {
    let mut v = PeerView::new(0, 2);
    assert_eq!(v.add_peer(node(0)), AdmitOutcome::Rejected);
    assert_eq!(v.add_peer(node(1)), AdmitOutcome::Eager);
    assert_eq!(v.add_peer(node(1)), AdmitOutcome::Rejected);
    assert_eq!(v.eager_len(), 1);
    assert_eq!(v.lazy_len(), 0);
}

#[test]
fn promote_and_demote_unknown_are_noops() {
    let mut v = PeerView::new(0, 2);
    v.add_peer(node(1));
    assert!(!v.promote(9));
    assert!(!v.demote(9));
    assert_eq!(v.eager_len(), 1);
    assert_eq!(v.lazy_len(), 0);
}

#[test]
fn remove_is_idempotent() {
    let mut v = PeerView::new(0, 1);
    v.add_peer(node(1));
    v.add_peer(node(2));
    assert!(v.remove(2));
    assert!(!v.remove(2));
    assert!(!v.contains(2));
    assert!(v.contains(1));
}

// After KillNode(p), p is gone from eager, lazy and the topology graph.
#[test]
fn kill_node_completeness() {
    let mut state = State::with_fanout(0, 1);
    state.on_peer_connected(node(1));
    state.on_peer_connected(node(2));
    assert!(state.view.is_eager(1));
    assert!(state.view.is_lazy(2));
    assert!(state.graph.contains_vertex(1));
    assert!(state.graph.contains_vertex(2));

    let cmds = state.handle(ServerMsg::KillNode(node(1)));
    assert!(cmds.is_empty());
    assert!(!state.view.is_eager(1));
    assert!(!state.view.is_lazy(1));
    assert!(!state.graph.contains_vertex(1));

    state.handle(ServerMsg::KillNode(node(2)));
    assert!(!state.view.contains(2));
    assert!(!state.graph.contains_vertex(2));
}

#[test]
fn kill_unknown_node_is_a_noop() {
    let mut state = State::with_fanout(0, 1);
    state.on_peer_connected(node(1));
    let cmds = state.handle(ServerMsg::KillNode(node(9)));
    assert!(cmds.is_empty());
    assert!(state.view.contains(1));
}

#[test]
fn failure_sweep_drops_unreachable_peers() {
    let mut state = State::with_fanout(0, 4);
    state.on_peer_connected(node(1));
    state.on_peer_connected(node(2));
    state.handle(ServerMsg::PeerDisconnected(node(1)));
    assert!(state.view.contains(1));
    state.handle(ServerMsg::TimerTick(gossip::TimerKind::FailureSweep));
    assert!(!state.view.contains(1));
    assert!(!state.graph.contains_vertex(1));
    assert!(state.view.contains(2));
}
