use gossip::Addr;
use gossip::Broadcast;
use gossip::BroadcastId;
use gossip::Command;
use gossip::DisseminationLog;
use gossip::Node;
use gossip::ReceiveOutcome;
use gossip::ServerMsg;
use gossip::State;

fn node(id: u128) -> Node {
    Node { id, addr: Addr::new("10.0.0.1", 9000) }
}

fn broadcast(origin: u128, seq: u64, payload: Vec<u8>) -> Broadcast {
    Broadcast { id: BroadcastId { origin, seq }, payload }
}

#[test]
fn receive_is_idempotent() {
    let mut log = DisseminationLog::new();
    let first = log.receive(broadcast(7, 0, vec![1, 2, 3]));
    assert_eq!(first, ReceiveOutcome::Accepted);
    assert_eq!(log.len(), 1);
    let second = log.receive(broadcast(7, 0, vec![1, 2, 3]));
    assert_eq!(second, ReceiveOutcome::Duplicate);
    assert_eq!(log.len(), 1);
    let entry = log.get(BroadcastId { origin: 7, seq: 0 }).unwrap();
    assert_eq!(entry.payload, vec![1, 2, 3]);
}

#[test]
fn duplicate_with_different_payload_keeps_first_record() {
    let mut log = DisseminationLog::new();
    log.receive(broadcast(7, 0, vec![1]));
    let out = log.receive(broadcast(7, 0, vec![9, 9]));
    assert_eq!(out, ReceiveOutcome::Duplicate);
    let entry = log.get(BroadcastId { origin: 7, seq: 0 }).unwrap();
    assert_eq!(entry.payload, vec![1]);
}

// Node A originates m1 with eager {B, C} and lazy {D}: the plan is a full
// send to B and C and a digest to D. When D then asks for repair, A
// answers with the full broadcast.
#[test]
fn end_to_end_dissemination() {
    let a: u128 = 1;
    let (b, c, d) = (2u128, 3u128, 4u128);
    let mut state = State::with_fanout(a, 2);
    state.on_peer_connected(node(b));
    state.on_peer_connected(node(c));
    state.on_peer_connected(node(d));
    assert!(state.view.is_eager(b));
    assert!(state.view.is_eager(c));
    assert!(state.view.is_lazy(d));

    let cmds = state.originate(vec![42, 43]);
    assert_eq!(cmds.len(), 3);
    match &cmds[0] {
        Command::SendFull(peer, m1) => {
            assert_eq!(*peer, b);
            assert_eq!(m1.id.origin, a);
            assert_eq!(m1.id.seq, 0);
            assert_eq!(m1.payload, vec![42, 43]);
        },
        _ => panic!("expected a full send to B"),
    }
    match &cmds[1] {
        Command::SendFull(peer, m1) => {
            assert_eq!(*peer, c);
            assert_eq!(m1.payload, vec![42, 43]);
        },
        _ => panic!("expected a full send to C"),
    }
    match &cmds[2] {
        Command::SendDigest(peer, id) => {
            assert_eq!(*peer, d);
            assert_eq!(*id, BroadcastId { origin: a, seq: 0 });
        },
        _ => panic!("expected a digest to D"),
    }

    let repair = state.handle(ServerMsg::RepairRequested(BroadcastId { origin: a, seq: 0 }, d));
    assert_eq!(repair.len(), 1);
    match &repair[0] {
        Command::SendFull(peer, m1) => {
            assert_eq!(*peer, d);
            assert_eq!(m1.id, BroadcastId { origin: a, seq: 0 });
            assert_eq!(m1.payload, vec![42, 43]);
        },
        _ => panic!("expected the repair answer to D"),
    }
}

#[test]
fn received_broadcast_skips_sender() {
    let mut state = State::with_fanout(1, 4);
    state.on_peer_connected(node(2));
    state.on_peer_connected(node(3));
    let cmds = state.handle(ServerMsg::Message(broadcast(9, 5, vec![7]), 2));
    // peer 2 sent it, so only peer 3 gets the eager push
    assert_eq!(cmds.len(), 1);
    match &cmds[0] {
        Command::SendFull(peer, m) => {
            assert_eq!(*peer, 3);
            assert_eq!(m.payload, vec![7]);
        },
        _ => panic!("expected one full send"),
    }
}

#[test]
fn duplicate_from_eager_peer_demotes_it() {
    let mut state = State::with_fanout(1, 4);
    state.on_peer_connected(node(2));
    state.on_peer_connected(node(3));
    state.handle(ServerMsg::Message(broadcast(9, 5, vec![7]), 2));
    assert!(state.view.is_eager(3));
    let cmds = state.handle(ServerMsg::Message(broadcast(9, 5, vec![7]), 3));
    assert!(cmds.is_empty());
    assert!(state.view.is_lazy(3));
    assert!(!state.view.is_eager(3));
}

#[test]
fn unseen_digest_requests_repair() {
    let mut state = State::with_fanout(1, 1);
    state.on_peer_connected(node(2));
    let id = BroadcastId { origin: 9, seq: 0 };
    let cmds = state.handle(ServerMsg::DigestReceived(id, 2));
    assert_eq!(cmds.len(), 1);
    match &cmds[0] {
        Command::RequestRepair(peer, want) => {
            assert_eq!(*peer, 2);
            assert_eq!(*want, id);
        },
        _ => panic!("expected a repair request"),
    }
}

#[test]
fn seen_digest_promotes_lazy_sender() {
    let mut state = State::with_fanout(1, 1);
    state.on_peer_connected(node(2));
    state.on_peer_connected(node(3));
    assert!(state.view.is_lazy(3));
    state.handle(ServerMsg::Message(broadcast(9, 5, vec![7]), 2));
    let cmds = state.handle(ServerMsg::DigestReceived(BroadcastId { origin: 9, seq: 5 }, 3));
    assert!(cmds.is_empty());
    assert!(state.view.is_eager(3));
    assert!(!state.view.is_lazy(3));
}

#[test]
fn repair_for_unknown_id_is_a_noop() {
    let state = State::with_fanout(1, 1);
    let cmds = state.on_repair_request(BroadcastId { origin: 9, seq: 0 }, 2);
    assert!(cmds.is_empty());
}

#[test]
fn originate_increments_sequence() {
    let mut state = State::with_fanout(1, 2);
    state.originate(vec![1]);
    state.originate(vec![2]);
    assert!(state.log.is_seen(BroadcastId { origin: 1, seq: 0 }));
    assert!(state.log.is_seen(BroadcastId { origin: 1, seq: 1 }));
    assert_eq!(state.next_seq, 2);
}
