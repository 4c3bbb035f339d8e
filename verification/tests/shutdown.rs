use gossip::ActorStatus;
use gossip::Addr;
use gossip::Broadcast;
use gossip::BroadcastId;
use gossip::Command;
use gossip::Node;
use gossip::ServerMsg;
use gossip::ShutdownReason;
use gossip::State;

fn node(id: u128) -> Node {
    Node { id, addr: Addr::new("10.0.0.4", 9300) }
}

// Running -> Draining on the shutdown request, with a leave notice to all
// of eager and lazy; Draining -> Stopped once the transport confirms the
// handoff; afterwards no event is processed.
#[test]
fn graceful_shutdown_scenario() {
    let a: u128 = 1;
    let mut state = State::with_fanout(a, 1);
    state.on_peer_connected(node(2));
    state.on_peer_connected(node(3));
    assert_eq!(state.status, ActorStatus::Running);

    let cmds = state.handle(ServerMsg::Shutdown(ShutdownReason::UserInitiatedShutdown));
    assert_eq!(state.status, ActorStatus::Draining);
    assert_eq!(cmds.len(), 2);
    match &cmds[0] {
        Command::SendFull(peer, leave) => {
            assert_eq!(*peer, 2);
            assert_eq!(leave.id, BroadcastId { origin: a, seq: 0 });
            assert!(leave.payload.is_empty());
        },
        _ => panic!("expected the leave notice to the eager peer"),
    }
    match &cmds[1] {
        Command::SendDigest(peer, id) => {
            assert_eq!(*peer, 3);
            assert_eq!(*id, BroadcastId { origin: a, seq: 0 });
        },
        _ => panic!("expected the leave digest to the lazy peer"),
    }

    // while draining, ordinary events are absorbed
    let absorbed = state.handle(ServerMsg::PeerConnected(node(4)));
    assert!(absorbed.is_empty());
    assert!(!state.view.contains(4));

    let close = state.handle(ServerMsg::HandoffConfirmed);
    assert_eq!(state.status, ActorStatus::Stopped);
    assert_eq!(close.len(), 1);
    assert!(matches!(close[0], Command::CloseAll));

    // stopped: nothing is processed any more
    let after = state.handle(ServerMsg::Message(
        Broadcast { id: BroadcastId { origin: 9, seq: 9 }, payload: vec![1] },
        2,
    ));
    assert!(after.is_empty());
    assert_eq!(state.log.len(), 1);
    assert_eq!(state.status, ActorStatus::Stopped);
}

#[test]
fn second_shutdown_request_is_absorbed() {
    let mut state = State::with_fanout(1, 1);
    state.handle(ServerMsg::Shutdown(ShutdownReason::NetworkFailure));
    assert_eq!(state.status, ActorStatus::Draining);
    let again = state.handle(ServerMsg::Shutdown(ShutdownReason::Failure));
    assert!(again.is_empty());
    assert_eq!(state.status, ActorStatus::Draining);
    assert_eq!(state.shutdown_reason, Some(ShutdownReason::NetworkFailure));
}

#[test]
fn handoff_in_running_is_absorbed() {
    let mut state = State::with_fanout(1, 1);
    let cmds = state.handle(ServerMsg::HandoffConfirmed);
    assert!(cmds.is_empty());
    assert_eq!(state.status, ActorStatus::Running);
}
