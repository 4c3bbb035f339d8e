//! The cluster actor: the single owner of all membership, dissemination,
//! topology and health state. It consumes one inbound event at a time and
//! answers with outbound commands for the transport to execute; no other
//! component mutates the state, so no locking is needed around it.

use vstd::prelude::*;
use vstd::assert_seqs_equal;

use crate::graph::Edge;
use crate::graph::Graph;
use crate::graph::Vertex;
use crate::graph::edge_eq;
use crate::graph::has_edge;
use crate::graph::lemma_push_contains_edge;
use crate::health::Health;
use crate::health::compute_health;
use crate::health::spec_health;
use crate::log::Broadcast;
use crate::log::BroadcastId;
use crate::log::DisseminationLog;
use crate::log::ReceiveOutcome;
use crate::log::clone_broadcast;
use crate::log::seen;
use crate::log::spec_apply;
use crate::node::Addr;
use crate::node::Node;
use crate::view::AdmitOutcome;
use crate::view::has_id;
use crate::view::PeerView;

verus! {

/// Why a shutdown was requested.
#[derive(Clone, Copy, Debug, PartialEq, Eq, Structural)]
pub enum ShutdownReason {
    UserInitiatedShutdown,
    NetworkFailure,
    Failure,
}

/// Which periodic timer fired.
#[derive(Clone, Copy, Debug, PartialEq, Eq, Structural)]
pub enum TimerKind {
    /// Re-evaluate whether the topology graph is a spanning tree.
    SpanningCheck,
    /// Recompute the health signal.
    HealthCheck,
    /// Drop every peer the failure detector has marked unreachable.
    FailureSweep,
}

/// Inbound events delivered to the actor's mailbox by the transport and
/// the timer.
pub enum ServerMsg {
    /// The transport established a link; the actor may add the peer.
    PeerConnected(Node),
    /// The transport lost a link: a reachability loss, not a removal.
    PeerDisconnected(Node),
    /// A broadcast arrived from the peer with the given id.
    Message(Broadcast, u128),
    /// A digest (id only) arrived from the peer with the given id.
    DigestReceived(BroadcastId, u128),
    /// A peer asks for the full payload of a digest it could not repair.
    RepairRequested(BroadcastId, u128),
    /// Drive `Running` to `Draining`, announcing the departure.
    Shutdown(ShutdownReason),
    /// Remove one node locally, without gossiping the change.
    KillNode(Node),
    /// A periodic timer fired.
    TimerTick(TimerKind),
    /// The transport confirmed the leave notice was handed off.
    HandoffConfirmed,
}

/// Outbound commands the actor hands to the transport. Peers are named by
/// id; the transport keeps the address book it built from connections.
pub enum Command {
    /// Eager push: the full broadcast.
    SendFull(u128, Broadcast),
    /// Lazy push: the digest only.
    SendDigest(u128, BroadcastId),
    /// Ask a peer for the full payload of an unseen digest.
    RequestRepair(u128, BroadcastId),
    /// Bind the listening address; requested once at startup.
    Bind(Addr),
    /// Close every connection; issued on entering `Stopped`.
    CloseAll,
}

/// The actor's lifecycle.
#[derive(Clone, Copy, Debug, PartialEq, Eq, Structural)]
pub enum ActorStatus {
    Running,
    Draining,
    Stopped,
}

/// The mathematical shadow of one command, used by contracts: the same
/// information with the payload as a sequence of bytes.
pub ghost enum PlanStep {
    Full { peer: u128, id: BroadcastId, payload: Seq<u8> },
    Digest { peer: u128, id: BroadcastId },
    Repair { peer: u128, id: BroadcastId },
    BindTo { ip: Seq<char>, port: u16 },
    Close,
}

pub open spec fn step_of(c: Command) -> PlanStep {
    match c {
        Command::SendFull(p, b) => PlanStep::Full { peer: p, id: b.id, payload: b.payload@ },
        Command::SendDigest(p, i) => PlanStep::Digest { peer: p, id: i },
        Command::RequestRepair(p, i) => PlanStep::Repair { peer: p, id: i },
        Command::Bind(a) => PlanStep::BindTo { ip: a.ip@, port: a.port },
        Command::CloseAll => PlanStep::Close,
    }
}

/// What a command list says, step by step.
pub open spec fn plan_of(cmds: Seq<Command>) -> Seq<PlanStep> {
    cmds.map_values(|c: Command| step_of(c))
}

/// The eager half of a push plan: one full send per eager peer, skipping
/// the sender.
pub open spec fn full_steps(eager: Seq<Node>, sender: u128, id: BroadcastId, payload: Seq<u8>) -> Seq<
    PlanStep,
>
    decreases eager.len(),
{
    if eager.len() == 0 {
        Seq::empty()
    } else {
        full_steps(eager.drop_last(), sender, id, payload) + (if eager.last().id == sender {
            Seq::empty()
        } else {
            seq![PlanStep::Full { peer: eager.last().id, id, payload }]
        })
    }
}

/// The lazy half of a push plan: one digest per lazy peer, skipping the
/// sender.
pub open spec fn digest_steps(lazy: Seq<Node>, sender: u128, id: BroadcastId) -> Seq<PlanStep>
    decreases lazy.len(),
{
    if lazy.len() == 0 {
        Seq::empty()
    } else {
        digest_steps(lazy.drop_last(), sender, id) + (if lazy.last().id == sender {
            Seq::empty()
        } else {
            seq![PlanStep::Digest { peer: lazy.last().id, id }]
        })
    }
}

/// The whole push plan for one accepted broadcast.
pub open spec fn spec_push_plan(view: PeerView, sender: u128, id: BroadcastId, payload: Seq<u8>) -> Seq<
    PlanStep,
> {
    full_steps(view.eager@, sender, id, payload) + digest_steps(view.lazy@, sender, id)
}

/// Build the push plan: the full payload to every eager peer but the
/// sender, a digest to every lazy peer but the sender.
pub fn push_plan(view: &PeerView, sender: u128, b: &Broadcast) -> (cmds: Vec<Command>)
    ensures
        plan_of(cmds@) == spec_push_plan(*view, sender, b.id, b.payload@),
{
    let mut cmds: Vec<Command> = Vec::new();
    let mut i: usize = 0;
    proof {
        assert(plan_of(cmds@) =~= Seq::<PlanStep>::empty());
        assert(view.eager@.take(0) =~= Seq::<Node>::empty());
    }
    while i < view.eager.len()
        invariant
            i <= view.eager@.len(),
            plan_of(cmds@) == full_steps(view.eager@.take(i as int), sender, b.id, b.payload@),
        decreases view.eager@.len() - i,
    {
        let ghost pre = cmds@;
        let n = &view.eager[i];
        if n.id != sender {
            let c = Command::SendFull(n.id, clone_broadcast(b));
            proof {
                assert(step_of(c) == (PlanStep::Full { peer: n.id, id: b.id, payload: b.payload@ }));
            }
            cmds.push(c);
            proof {
                assert_seqs_equal!(plan_of(cmds@) == plan_of(pre).push(step_of(cmds@.last())));
            }
        }
        proof {
            let t1 = view.eager@.take(i + 1);
            assert(t1.drop_last() =~= view.eager@.take(i as int));
            assert(t1.last() == view.eager@[i as int]);
            if n.id == sender {
                assert(plan_of(cmds@) =~= full_steps(t1, sender, b.id, b.payload@));
            } else {
                assert(plan_of(cmds@) =~= full_steps(t1, sender, b.id, b.payload@));
            }
        }
        i += 1;
    }
    proof {
        assert(view.eager@.take(view.eager@.len() as int) =~= view.eager@);
    }
    let mut j: usize = 0;
    proof {
        assert(view.lazy@.take(0) =~= Seq::<Node>::empty());
        assert(plan_of(cmds@) =~= full_steps(view.eager@, sender, b.id, b.payload@) + digest_steps(
            view.lazy@.take(0),
            sender,
            b.id,
        ));
    }
    while j < view.lazy.len()
        invariant
            j <= view.lazy@.len(),
            plan_of(cmds@) == full_steps(view.eager@, sender, b.id, b.payload@) + digest_steps(
                view.lazy@.take(j as int),
                sender,
                b.id,
            ),
        decreases view.lazy@.len() - j,
    {
        let ghost pre = cmds@;
        let n = &view.lazy[j];
        if n.id != sender {
            let c = Command::SendDigest(n.id, b.id);
            cmds.push(c);
            proof {
                assert_seqs_equal!(plan_of(cmds@) == plan_of(pre).push(step_of(cmds@.last())));
            }
        }
        proof {
            let t1 = view.lazy@.take(j + 1);
            assert(t1.drop_last() =~= view.lazy@.take(j as int));
            assert(t1.last() == view.lazy@[j as int]);
            assert(plan_of(cmds@) =~= full_steps(view.eager@, sender, b.id, b.payload@)
                + digest_steps(t1, sender, b.id));
        }
        j += 1;
    }
    proof {
        assert(view.lazy@.take(view.lazy@.len() as int) =~= view.lazy@);
    }
    cmds
}

/// The payload stored in the log under `id` (meaningful when some entry
/// carries that id; ids are unique in a well-formed log).
pub open spec fn payload_of(s: Seq<Broadcast>, id: BroadcastId) -> Seq<u8> {
    s[choose|i: int| 0 <= i < s.len() && s[i].id == id].payload@
}

/// How many entries of `s` are not marked unreachable in `u`.
pub open spec fn count_reach(s: Seq<Node>, u: Seq<u128>) -> int
    decreases s.len(),
{
    if s.len() == 0 {
        0
    } else {
        count_reach(s.drop_last(), u) + (if u.contains(s.last().id) {
            0int
        } else {
            1int
        })
    }
}

/// The count never exceeds the sequence length, and never drops below 0.
proof fn lemma_count_reach_bound(s: Seq<Node>, u: Seq<u128>)
    ensures
        0 <= count_reach(s, u) <= s.len(),
    decreases s.len(),
{
    if s.len() > 0 {
        lemma_count_reach_bound(s.drop_last(), u);
    }
}

fn contains_u128(u: &Vec<u128>, x: u128) -> (r: bool)
    ensures
        r == u@.contains(x),
{
    let mut i: usize = 0;
    while i < u.len()
        invariant
            i <= u@.len(),
            forall|k: int| 0 <= k < i ==> u@[k] != x,
        decreases u@.len() - i,
    {
        if u[i] == x {
            assert(u@[i as int] == x);
            return true;
        }
        i += 1;
    }
    false
}

fn count_in(s: &Vec<Node>, u: &Vec<u128>) -> (n: usize)
    ensures
        n == count_reach(s@, u@),
{
    let mut n: usize = 0;
    let mut i: usize = 0;
    proof {
        assert(s@.take(0) =~= Seq::<Node>::empty());
    }
    while i < s.len()
        invariant
            i <= s@.len(),
            n == count_reach(s@.take(i as int), u@),
            n <= i,
        decreases s@.len() - i,
    {
        proof {
            let t1 = s@.take(i + 1);
            assert(t1.drop_last() =~= s@.take(i as int));
            assert(t1.last() == s@[i as int]);
        }
        if !contains_u128(u, s[i].id) {
            n += 1;
        }
        i += 1;
    }
    proof {
        assert(s@.take(s@.len() as int) =~= s@);
    }
    n
}

/// The whole actor-owned state of one server.
pub struct State {
    /// The id of the server this state belongs to.
    pub self_id: u128,
    /// Where the actor stands in its lifecycle.
    pub status: ActorStatus,
    /// Eager and lazy peer membership.
    pub view: PeerView,
    /// Every broadcast applied so far.
    pub log: DisseminationLog,
    /// The communication topology over known peers.
    pub graph: Graph,
    /// The last derived health signal.
    pub health: Health,
    /// The next origin-local sequence number for an own broadcast.
    pub next_seq: u64,
    /// Ids the failure detector currently marks unreachable.
    pub unreachable: Vec<u128>,
    /// Why a shutdown was requested, once one was.
    pub shutdown_reason: Option<ShutdownReason>,
}

/// The default bound on the eager set's size.
pub const DEFAULT_K_EAGER: usize = 5;

/// What the health signal must say of a given state.
pub open spec fn spec_state_health(s: State) -> Health {
    spec_health(
        s.view.eager@.len() + s.view.lazy@.len() as int,
        count_reach(s.view.eager@, s.unreachable@) + count_reach(s.view.lazy@, s.unreachable@),
        s.graph.connected_over(),
    )
}

impl State {
    /// All component invariants, plus: the view belongs to this server.
    pub open spec fn wf(self) -> bool {
        &&& self.view.wf()
        &&& self.view.self_id == self.self_id
        &&& self.log.wf()
        &&& self.graph.wf()
    }

    /// A fresh state with the default eager fanout. A new cluster starts
    /// in `Yellow`: it is operational but still expects peers.
    pub fn new(self_id: u128) -> (s: State)
        ensures
            s.wf(),
            s == (State {
                self_id,
                status: ActorStatus::Running,
                health: Health::Yellow,
                next_seq: 0u64,
                ..s
            }),
            s.view.eager@.len() == 0,
            s.view.lazy@.len() == 0,
            s.view.k_eager == DEFAULT_K_EAGER,
            s.log.entries@.len() == 0,
            s.graph.vertices@.len() == 0,
            s.graph.edges@.len() == 0,
            !s.graph.spanning,
            s.unreachable@.len() == 0,
            s.shutdown_reason is None,
    {
        State::with_fanout(self_id, DEFAULT_K_EAGER)
    }

    /// A fresh state with an explicit eager fanout `k_eager`.
    pub fn with_fanout(self_id: u128, k_eager: usize) -> (s: State)
        ensures
            s.wf(),
            s == (State {
                self_id,
                status: ActorStatus::Running,
                health: Health::Yellow,
                next_seq: 0u64,
                ..s
            }),
            s.view.eager@.len() == 0,
            s.view.lazy@.len() == 0,
            s.view.k_eager == k_eager,
            s.log.entries@.len() == 0,
            s.graph.vertices@.len() == 0,
            s.graph.edges@.len() == 0,
            !s.graph.spanning,
            s.unreachable@.len() == 0,
            s.shutdown_reason is None,
    {
        State {
            self_id,
            status: ActorStatus::Running,
            view: PeerView::new(self_id, k_eager),
            log: DisseminationLog::new(),
            graph: Graph::new(),
            health: Health::Yellow,
            next_seq: 0,
            unreachable: Vec::new(),
            shutdown_reason: None,
        }
    }

    /// Recompute the health signal from membership, reachability and
    /// topology connectivity. Total: it never fails.
    fn recompute_health(&mut self)
        requires
            old(self).wf(),
        ensures
            *final(self) == (State { health: final(self).health, ..*old(self) }),
            final(self).health == spec_state_health(*old(self)),
            final(self).wf(),
    {
        let ce = count_in(&self.view.eager, &self.unreachable);
        let cl = count_in(&self.view.lazy, &self.unreachable);
        let known: u128 = self.view.eager.len() as u128 + self.view.lazy.len() as u128;
        let reach: u128 = ce as u128 + cl as u128;
        proof {
            lemma_count_reach_bound(self.view.eager@, self.unreachable@);
            lemma_count_reach_bound(self.view.lazy@, self.unreachable@);
        }
        let connected = self.graph.is_connected();
        self.health = compute_health(known, reach, connected);
    }
}

/// Pushing an element makes a sequence's contents exactly the old ones
/// plus it.
proof fn lemma_push_contains_gen<T>(s: Seq<T>, v: T)
    ensures
        forall|w: T| #[trigger] s.push(v).contains(w) <==> (s.contains(w) || w == v),
{
    let t = s.push(v);
    assert forall|w: T| #[trigger] t.contains(w) implies (s.contains(w) || w == v) by {
        let k = choose|k: int| 0 <= k < t.len() && t[k] == w;
        if k < s.len() {
            assert(s[k] == w);
        }
    }
    assert forall|w: T| (s.contains(w) || w == v) implies #[trigger] t.contains(w) by {
        if s.contains(w) {
            let k = choose|k: int| 0 <= k < s.len() && s[k] == w;
            assert(t[k] == w);
        } else {
            assert(t[s.len() as int] == w);
        }
    }
}

/// Drop every occurrence of `x`.
fn remove_u128(u: &mut Vec<u128>, x: u128)
    ensures
        forall|y: u128| final(u)@.contains(y) <==> (old(u)@.contains(y) && y != x),
{
    let mut kept: Vec<u128> = Vec::new();
    let mut j: usize = 0;
    proof {
        assert(old(u)@.take(0) =~= Seq::<u128>::empty());
    }
    while j < u.len()
        invariant
            j <= u@.len(),
            u@ == old(u)@,
            forall|y: u128| #[trigger]
                kept@.contains(y) <==> (u@.take(j as int).contains(y) && y != x),
        decreases u@.len() - j,
    {
        let ghost pre = kept@;
        let e = u[j];
        if e != x {
            kept.push(e);
            proof {
                lemma_push_contains_gen(pre, e);
            }
        }
        proof {
            let tj = u@.take(j as int);
            let tj1 = u@.take(j as int + 1);
            assert(tj1.drop_last() =~= tj);
            assert(tj1.last() == u@[j as int]);
            assert forall|y: u128| #[trigger] tj1.contains(y) implies (tj.contains(y) || y
                == u@[j as int]) by {
                let m = choose|m: int| 0 <= m < tj1.len() && tj1[m] == y;
                if m < j {
                    assert(tj[m] == y);
                }
            }
            assert forall|y: u128| tj.contains(y) implies #[trigger] tj1.contains(y) by {
                let m = choose|m: int| 0 <= m < tj.len() && tj[m] == y;
                assert(tj1[m] == y);
            }
            assert(tj1.contains(u@[j as int])) by {
                assert(tj1[j as int] == u@[j as int]);
            }
        }
        j += 1;
    }
    proof {
        assert(u@.take(u@.len() as int) =~= u@);
    }
    *u = kept;
}

impl State {
    /// The transport established a link: take the peer in (eagerly while
    /// there is room, lazily otherwise), mirror an eager admission as a
    /// topology edge, clear any stale unreachable mark, and rederive the
    /// health signal. Re-admitting a member or the server itself changes
    /// no membership.
    pub fn on_peer_connected(&mut self, peer: Node) -> (r: AdmitOutcome)
        requires
            old(self).wf(),
        ensures
            final(self).wf(),
            final(self).self_id == old(self).self_id,
            final(self).status == old(self).status,
            final(self).log == old(self).log,
            final(self).next_seq == old(self).next_seq,
            (r == AdmitOutcome::Rejected) <==> (peer.id == old(self).self_id || old(self).view.member(peer.id)),
            r == AdmitOutcome::Rejected ==> final(self).view.eager@ == old(self).view.eager@
                && final(self).view.lazy@ == old(self).view.lazy@ && final(self).graph.vertices@
                == old(self).graph.vertices@ && final(self).graph.edges@ == old(self).graph.edges@,
            r == AdmitOutcome::Eager ==> final(self).view.eager@ == old(self).view.eager@.push(
                peer,
            ) && final(self).view.lazy@ == old(self).view.lazy@ && old(self).view.eager@.len()
                < old(self).view.k_eager,
            r == AdmitOutcome::Lazy ==> final(self).view.lazy@ == old(self).view.lazy@.push(peer)
                && final(self).view.eager@ == old(self).view.eager@ && old(self).view.eager@.len()
                >= old(self).view.k_eager,
            r == AdmitOutcome::Eager ==> (forall|w: Vertex|
                final(self).graph.vertices@.contains(w) <==> (old(self).graph.vertices@.contains(w)
                    || w == (Vertex { id: old(self).self_id }) || w == (Vertex { id: peer.id })))
                && (forall|x: Vertex, y: Vertex|
                has_edge(final(self).graph.edges@, x, y) <==> (has_edge(old(self).graph.edges@, x, y)
                    || edge_eq(
                    Edge { a: x, b: y },
                    Edge { a: Vertex { id: old(self).self_id }, b: Vertex { id: peer.id } },
                ))),
            r == AdmitOutcome::Lazy ==> (forall|w: Vertex|
                final(self).graph.vertices@.contains(w) <==> (old(self).graph.vertices@.contains(w)
                    || w == (Vertex { id: peer.id }))) && final(self).graph.edges@ == old(self).graph.edges@,
            forall|y: u128|
                final(self).unreachable@.contains(y) <==> (old(self).unreachable@.contains(y) && y
                    != peer.id),
            final(self).health == spec_state_health(*final(self)),
            final(self).view.k_eager == old(self).view.k_eager,
    {
        let pid = peer.id;
        let r = self.view.add_peer(peer);
        match r {
            AdmitOutcome::Rejected => {},
            AdmitOutcome::Eager => {
                let sid = self.self_id;
                self.graph.add_vertex(sid);
                let ghost mid = self.graph;
                self.graph.add_vertex(pid);
                let ghost pre_connect = self.graph;
                let added = self.graph.connect(sid, pid);
                proof {
                    let vs = Vertex { id: sid };
                    let vp = Vertex { id: pid };
                    if added {
                        lemma_push_contains_edge(
                            pre_connect.edges@,
                            Edge { a: vs, b: vp },
                        );
                    } else {
                        assert(has_edge(pre_connect.edges@, vs, vp));
                    }
                    assert forall|x: Vertex, y: Vertex|
                        has_edge(self.graph.edges@, x, y) <==> (has_edge(
                            old(self).graph.edges@,
                            x,
                            y,
                        ) || edge_eq(Edge { a: x, b: y }, Edge { a: vs, b: vp })) by {
                        if added {
                            assert(has_edge(self.graph.edges@, x, y) <==> (has_edge(
                                pre_connect.edges@,
                                x,
                                y,
                            ) || edge_eq(Edge { a: x, b: y }, Edge { a: vs, b: vp })));
                        }
                    }
                }
            },
            AdmitOutcome::Lazy => {
                self.graph.add_vertex(pid);
            },
        }
        remove_u128(&mut self.unreachable, pid);
        self.recompute_health();
        r
    }

    /// The transport lost a link: a reachability loss only. The peer stays
    /// a member; the health signal is rederived with it marked
    /// unreachable. Removal is `kill_node`'s or the failure sweep's job.
    pub fn on_peer_disconnected(&mut self, peer: Node)
        requires
            old(self).wf(),
        ensures
            final(self).wf(),
            *final(self) == (State {
                unreachable: final(self).unreachable,
                health: final(self).health,
                ..*old(self)
            }),
            forall|y: u128|
                final(self).unreachable@.contains(y) <==> (old(self).unreachable@.contains(y) || y
                    == peer.id),
            final(self).health == spec_state_health(*final(self)),
    {
        let ghost pre = self.unreachable@;
        if !contains_u128(&self.unreachable, peer.id) {
            self.unreachable.push(peer.id);
            proof {
                lemma_push_contains_gen(pre, peer.id);
            }
        }
        self.recompute_health();
    }

    /// Feed one received broadcast through the log. A new id is appended
    /// and answered with the push plan: the full payload to every eager
    /// peer but the sender, a digest to every lazy peer but the sender. A
    /// duplicate changes no log state and yields no plan; instead the
    /// sender, having pushed redundantly, is demoted to lazy and its
    /// eager edge dropped, the self-optimizing rebalance of the broadcast
    /// tree.
    pub fn receive_broadcast(&mut self, b: Broadcast, from: u128) -> (cmds: Vec<Command>)
        requires
            old(self).wf(),
        ensures
            final(self).wf(),
            final(self).self_id == old(self).self_id,
            final(self).status == old(self).status,
            final(self).next_seq == old(self).next_seq,
            final(self).unreachable == old(self).unreachable,
            final(self).view.k_eager == old(self).view.k_eager,
            final(self).log.entries@ == spec_apply(old(self).log.entries@, b),
            seen(final(self).log.entries@, b.id),
            !seen(old(self).log.entries@, b.id) ==> plan_of(cmds@) == spec_push_plan(
                old(self).view,
                from,
                b.id,
                b.payload@,
            ) && final(self).view == old(self).view && final(self).graph == old(self).graph
                && final(self).health == old(self).health,
            seen(old(self).log.entries@, b.id) ==> {
                &&& cmds@.len() == 0
                &&& final(self).log.entries@ == old(self).log.entries@
                &&& (old(self).view.eager_has(from) ==> (forall|n: Node|
                    final(self).view.eager@.contains(n) <==> (old(self).view.eager@.contains(n)
                        && n.id != from)) && (forall|n: Node|
                    final(self).view.lazy@.contains(n) <==> (old(self).view.lazy@.contains(n) || (
                    old(self).view.eager@.contains(n) && n.id == from))))
                &&& (!old(self).view.eager_has(from) ==> final(self).view.eager@ == old(self).view.eager@ && final(self).view.lazy@ == old(self).view.lazy@)
                &&& final(self).graph.vertices@ == old(self).graph.vertices@
                &&& (forall|x: Vertex, y: Vertex|
                    has_edge(final(self).graph.edges@, x, y) <==> (has_edge(
                        old(self).graph.edges@,
                        x,
                        y,
                    ) && !edge_eq(
                        Edge { a: x, b: y },
                        Edge {
                            a: Vertex { id: old(self).self_id },
                            b: Vertex { id: from },
                        },
                    )))
                &&& final(self).health == spec_state_health(*final(self))
            },
    {
        let copy = clone_broadcast(&b);
        let out = self.log.receive(b);
        match out {
            ReceiveOutcome::Accepted => {
                let cmds = push_plan(&self.view, from, &copy);
                cmds
            },
            ReceiveOutcome::Duplicate => {
                self.view.demote(from);
                let sid = self.self_id;
                self.graph.disconnect(sid, from);
                self.recompute_health();
                Vec::new()
            },
        }
    }

    /// A digest arrived. For an unseen id, ask the digest's sender for the
    /// full payload: the lazy-push repair path. For a seen id the sender,
    /// a lazy peer that evidently already receives broadcasts well, is
    /// promoted to eager, with the matching topology edge.
    pub fn on_digest(&mut self, id: BroadcastId, from: u128) -> (cmds: Vec<Command>)
        requires
            old(self).wf(),
        ensures
            final(self).wf(),
            final(self).self_id == old(self).self_id,
            final(self).status == old(self).status,
            final(self).log == old(self).log,
            final(self).next_seq == old(self).next_seq,
            final(self).unreachable == old(self).unreachable,
            final(self).view.k_eager == old(self).view.k_eager,
            !seen(old(self).log.entries@, id) ==> *final(self) == *old(self) && plan_of(cmds@)
                == seq![PlanStep::Repair { peer: from, id }],
            seen(old(self).log.entries@, id) ==> {
                &&& cmds@.len() == 0
                &&& (old(self).view.lazy_has(from) ==> (forall|n: Node|
                    final(self).view.lazy@.contains(n) <==> (old(self).view.lazy@.contains(n)
                        && n.id != from)) && (forall|n: Node|
                    final(self).view.eager@.contains(n) <==> (old(self).view.eager@.contains(n) || (
                    old(self).view.lazy@.contains(n) && n.id == from))) && has_edge(
                    final(self).graph.edges@,
                    Vertex { id: old(self).self_id },
                    Vertex { id: from },
                ))
                &&& (!old(self).view.lazy_has(from) ==> final(self).view.eager@ == old(self).view.eager@ && final(self).view.lazy@ == old(self).view.lazy@ && final(self).graph == old(self).graph)
                &&& final(self).health == spec_state_health(*final(self))
            },
    {
        if self.log.is_seen(id) {
            let moved = self.view.promote(from);
            if moved {
                let sid = self.self_id;
                assert(from != sid);
                self.graph.add_vertex(sid);
                self.graph.add_vertex(from);
                let ghost pre_connect = self.graph;
                let added = self.graph.connect(sid, from);
                proof {
                    let vs = Vertex { id: sid };
                    let vp = Vertex { id: from };
                    if added {
                        lemma_push_contains_edge(pre_connect.edges@, Edge { a: vs, b: vp });
                        assert(self.graph.edges@.contains(Edge { a: vs, b: vp }));
                    } else {
                        assert(has_edge(pre_connect.edges@, vs, vp));
                    }
                }
            }
            self.recompute_health();
            Vec::new()
        } else {
            let mut cmds: Vec<Command> = Vec::new();
            cmds.push(Command::RequestRepair(from, id));
            proof {
                assert_seqs_equal!(plan_of(cmds@) == seq![PlanStep::Repair { peer: from, id }]);
            }
            cmds
        }
    }

    /// A peer asks for a full payload it is missing: answer with the
    /// stored broadcast exactly when its id was seen.
    pub fn on_repair_request(&self, id: BroadcastId, from: u128) -> (cmds: Vec<Command>)
        requires
            self.wf(),
        ensures
            seen(self.log.entries@, id) ==> plan_of(cmds@) == seq![
                PlanStep::Full { peer: from, id, payload: payload_of(self.log.entries@, id) },
            ],
            !seen(self.log.entries@, id) ==> cmds@.len() == 0,
    {
        match self.log.get(id) {
            Some(entry) => {
                let full = clone_broadcast(entry);
                let mut cmds: Vec<Command> = Vec::new();
                proof {
                    let s = self.log.entries@;
                    let i = choose|i: int| 0 <= i < s.len() && s[i].id == id;
                    let k = choose|k: int| 0 <= k < s.len() && s[k] == *entry;
                    assert(s[k].id == id);
                    assert(s[i] == s[k]);
                    assert(payload_of(s, id) == entry.payload@);
                }
                cmds.push(Command::SendFull(from, full));
                proof {
                    assert_seqs_equal!(plan_of(cmds@) == seq![PlanStep::Full { peer: from, id, payload: payload_of(self.log.entries@, id) }]);
                }
                cmds
            },
            None => Vec::new(),
        }
    }

    /// Originate an own broadcast: assign the next origin-local sequence
    /// number, apply the broadcast to the log as if received from this
    /// server, and plan a push to all of eager and lazy (the server is in
    /// neither set, so nobody is skipped).
    pub fn originate(&mut self, payload: Vec<u8>) -> (cmds: Vec<Command>)
        requires
            old(self).wf(),
            old(self).next_seq < u64::MAX,
        ensures
            final(self).wf(),
            *final(self) == (State {
                log: final(self).log,
                next_seq: (old(self).next_seq + 1) as u64,
                ..*old(self)
            }),
            final(self).log.entries@ == spec_apply(
                old(self).log.entries@,
                Broadcast {
                    id: BroadcastId { origin: old(self).self_id, seq: old(self).next_seq },
                    payload,
                },
            ),
            plan_of(cmds@) == spec_push_plan(
                old(self).view,
                old(self).self_id,
                BroadcastId { origin: old(self).self_id, seq: old(self).next_seq },
                payload@,
            ),
    {
        let bid = BroadcastId { origin: self.self_id, seq: self.next_seq };
        self.next_seq = self.next_seq + 1;
        let b = Broadcast { id: bid, payload };
        let copy = clone_broadcast(&b);
        let sid = self.self_id;
        self.log.receive(b);
        let cmds = push_plan(&self.view, sid, &copy);
        cmds
    }

    /// Remove one node locally: out of both membership sets, out of the
    /// topology with all its edges, and out of the unreachable marks; then
    /// rederive health. A local state change, never gossiped, and a no-op
    /// on an unknown peer.
    pub fn kill_node(&mut self, peer_id: u128)
        requires
            old(self).wf(),
        ensures
            final(self).wf(),
            final(self).self_id == old(self).self_id,
            final(self).status == old(self).status,
            final(self).log == old(self).log,
            final(self).next_seq == old(self).next_seq,
            final(self).view.k_eager == old(self).view.k_eager,
            !final(self).view.member(peer_id),
            !final(self).graph.has_vertex(peer_id),
            forall|n: Node|
                final(self).view.eager@.contains(n) <==> (old(self).view.eager@.contains(n) && n.id
                    != peer_id),
            forall|n: Node|
                final(self).view.lazy@.contains(n) <==> (old(self).view.lazy@.contains(n) && n.id
                    != peer_id),
            forall|w: Vertex|
                final(self).graph.vertices@.contains(w) <==> (old(self).graph.vertices@.contains(w)
                    && w.id != peer_id),
            forall|x: Vertex, y: Vertex|
                has_edge(final(self).graph.edges@, x, y) <==> (has_edge(old(self).graph.edges@, x, y)
                    && x.id != peer_id && y.id != peer_id),
            forall|y: u128|
                final(self).unreachable@.contains(y) <==> (old(self).unreachable@.contains(y) && y
                    != peer_id),
            final(self).health == spec_state_health(*final(self)),
    {
        self.view.remove(peer_id);
        self.graph.remove_vertex(peer_id);
        remove_u128(&mut self.unreachable, peer_id);
        self.recompute_health();
        proof {
            if self.view.member(peer_id) {
                if has_id(self.view.eager@, peer_id) {
                    let k = choose|k: int|
                        0 <= k < self.view.eager@.len() && self.view.eager@[k].id == peer_id;
                    assert(self.view.eager@.contains(self.view.eager@[k]));
                } else {
                    let k = choose|k: int|
                        0 <= k < self.view.lazy@.len() && self.view.lazy@[k].id == peer_id;
                    assert(self.view.lazy@.contains(self.view.lazy@[k]));
                }
            }
        }
    }
}

impl State {
    /// The failure-detector sweep: every peer currently marked unreachable
    /// is dropped from both membership sets and from the topology with its
    /// edges, the marks are cleared, and health is rederived.
    pub fn sweep_unreachable(&mut self)
        requires
            old(self).wf(),
        ensures
            final(self).wf(),
            final(self).self_id == old(self).self_id,
            final(self).status == old(self).status,
            final(self).log == old(self).log,
            final(self).next_seq == old(self).next_seq,
            final(self).view.k_eager == old(self).view.k_eager,
            final(self).shutdown_reason == old(self).shutdown_reason,
            final(self).unreachable@.len() == 0,
            forall|n: Node|
                final(self).view.eager@.contains(n) <==> (old(self).view.eager@.contains(n) && !old(self).unreachable@.contains(n.id)),
            forall|n: Node|
                final(self).view.lazy@.contains(n) <==> (old(self).view.lazy@.contains(n) && !old(self).unreachable@.contains(n.id)),
            forall|w: Vertex|
                final(self).graph.vertices@.contains(w) <==> (old(self).graph.vertices@.contains(w)
                    && !old(self).unreachable@.contains(w.id)),
            forall|x: Vertex, y: Vertex|
                has_edge(final(self).graph.edges@, x, y) <==> (has_edge(old(self).graph.edges@, x, y)
                    && !old(self).unreachable@.contains(x.id) && !old(self).unreachable@.contains(
                    y.id,
                )),
            final(self).health == spec_state_health(*final(self)),
    {
        let ghost u0 = old(self).unreachable@;
        proof {
            assert(u0.take(u0.len() as int) =~= u0);
            assert(u0.skip(u0.len() as int) =~= Seq::<u128>::empty());
        }
        while self.unreachable.len() > 0
            invariant
                self.view.wf(),
                self.graph.wf(),
                self.view.self_id == self.self_id,
                self.log == old(self).log,
                self.log.wf(),
                self.status == old(self).status,
                self.next_seq == old(self).next_seq,
                self.self_id == old(self).self_id,
                self.health == old(self).health,
                self.view.k_eager == old(self).view.k_eager,
                self.shutdown_reason == old(self).shutdown_reason,
                self.unreachable@.len() <= u0.len(),
                self.unreachable@ == u0.take(self.unreachable@.len() as int),
                forall|n: Node|
                    self.view.eager@.contains(n) <==> (old(self).view.eager@.contains(n)
                        && !u0.skip(self.unreachable@.len() as int).contains(n.id)),
                forall|n: Node|
                    self.view.lazy@.contains(n) <==> (old(self).view.lazy@.contains(n) && !u0.skip(
                        self.unreachable@.len() as int,
                    ).contains(n.id)),
                forall|w: Vertex|
                    self.graph.vertices@.contains(w) <==> (old(self).graph.vertices@.contains(w)
                        && !u0.skip(self.unreachable@.len() as int).contains(w.id)),
                forall|x: Vertex, y: Vertex|
                    has_edge(self.graph.edges@, x, y) <==> (has_edge(old(self).graph.edges@, x, y)
                        && !u0.skip(self.unreachable@.len() as int).contains(x.id) && !u0.skip(
                        self.unreachable@.len() as int,
                    ).contains(y.id)),
            decreases self.unreachable@.len(),
        {
            let ghost m = self.unreachable@.len() as int;
            let id = self.unreachable.pop().unwrap();
            proof {
                assert(id == u0[m - 1]);
                assert(self.unreachable@ =~= u0.take(m - 1));
                assert forall|y: u128| #[trigger]
                    u0.skip(m - 1).contains(y) implies (y == u0[m - 1] || u0.skip(m).contains(
                    y,
                )) by {
                    let k = choose|k: int| 0 <= k < u0.skip(m - 1).len() && #[trigger] u0.skip(m - 1)[k] == y;
                    if k > 0 {
                        assert(u0.skip(m)[k - 1] == y);
                    }
                }
                assert forall|y: u128| u0.skip(m).contains(y) implies #[trigger] u0.skip(
                    m - 1,
                ).contains(y) by {
                    let k = choose|k: int| 0 <= k < u0.skip(m).len() && #[trigger] u0.skip(m)[k] == y;
                    assert(u0.skip(m - 1)[k + 1] == y);
                }
                assert(u0.skip(m - 1).contains(u0[m - 1])) by {
                    assert(u0.skip(m - 1)[0] == u0[m - 1]);
                }
            }
            self.view.remove(id);
            self.graph.remove_vertex(id);
        }
        proof {
            assert(self.unreachable@ =~= u0.take(0));
            assert(u0.skip(0) =~= u0);
        }
        self.recompute_health();
    }

    /// One periodic timer event: re-evaluate spanning-ness, rederive
    /// health, or run the failure-detector sweep.
    pub fn handle_timer(&mut self, kind: TimerKind)
        requires
            old(self).wf(),
        ensures
            final(self).wf(),
            kind == TimerKind::SpanningCheck ==> *final(self) == (State {
                graph: final(self).graph,
                ..*old(self)
            }) && final(self).graph.vertices@ == old(self).graph.vertices@ && final(self).graph.edges@ == old(self).graph.edges@ && final(self).graph.spanning == old(self).graph.spec_spanning(),
            kind == TimerKind::HealthCheck ==> *final(self) == (State {
                health: spec_state_health(*old(self)),
                ..*old(self)
            }),
            kind == TimerKind::FailureSweep ==> final(self).unreachable@.len() == 0 && (forall|
                n: Node,
            |
                final(self).view.eager@.contains(n) <==> (old(self).view.eager@.contains(n) && !old(self).unreachable@.contains(n.id))) && (forall|n: Node|
                final(self).view.lazy@.contains(n) <==> (old(self).view.lazy@.contains(n) && !old(self).unreachable@.contains(n.id))) && (forall|w: Vertex|
                final(self).graph.vertices@.contains(w) <==> (old(self).graph.vertices@.contains(w)
                    && !old(self).unreachable@.contains(w.id))) && final(self).health
                == spec_state_health(*final(self)) && final(self).status == old(self).status
                && final(self).log == old(self).log && final(self).next_seq == old(self).next_seq
                && final(self).self_id == old(self).self_id,
    {
        match kind {
            TimerKind::SpanningCheck => {
                self.graph.recompute_spanning();
            },
            TimerKind::HealthCheck => {
                self.recompute_health();
            },
            TimerKind::FailureSweep => {
                self.sweep_unreachable();
            },
        }
    }

    /// Ask the actor to shut down. From `Running` it originates the leave
    /// notice (an own broadcast with an empty payload) so that peers can
    /// demote or remove this server proactively, records the reason, and
    /// drains. In any other state the request is absorbed.
    pub fn request_shutdown(&mut self, reason: ShutdownReason) -> (cmds: Vec<Command>)
        requires
            old(self).wf(),
            old(self).next_seq < u64::MAX,
        ensures
            final(self).wf(),
            old(self).status != ActorStatus::Running ==> *final(self) == *old(self) && cmds@.len()
                == 0,
            old(self).status == ActorStatus::Running ==> {
                &&& *final(self) == (State {
                    status: ActorStatus::Draining,
                    log: final(self).log,
                    next_seq: (old(self).next_seq + 1) as u64,
                    shutdown_reason: Some(reason),
                    ..*old(self)
                })
                &&& (!seen(
                    old(self).log.entries@,
                    BroadcastId { origin: old(self).self_id, seq: old(self).next_seq },
                ) ==> final(self).log.entries@.len() == old(self).log.entries@.len() + 1 && final(self).log.entries@.last().id == (BroadcastId {
                    origin: old(self).self_id,
                    seq: old(self).next_seq,
                }) && final(self).log.entries@.last().payload@ == Seq::<u8>::empty() && final(self).log.entries@.drop_last() == old(self).log.entries@)
                &&& (seen(
                    old(self).log.entries@,
                    BroadcastId { origin: old(self).self_id, seq: old(self).next_seq },
                ) ==> final(self).log.entries@ == old(self).log.entries@)
                &&& plan_of(cmds@) == spec_push_plan(
                    old(self).view,
                    old(self).self_id,
                    BroadcastId { origin: old(self).self_id, seq: old(self).next_seq },
                    Seq::<u8>::empty(),
                )
            },
    {
        if self.status == ActorStatus::Running {
            let cmds = self.originate(Vec::new());
            self.status = ActorStatus::Draining;
            self.shutdown_reason = Some(reason);
            cmds
        } else {
            Vec::new()
        }
    }

    /// The transport confirmed the leave notice was handed off: from
    /// `Draining` the actor stops and asks the transport to close every
    /// connection. In any other state the event is absorbed.
    pub fn on_handoff_confirmed(&mut self) -> (cmds: Vec<Command>)
        requires
            old(self).wf(),
        ensures
            final(self).wf(),
            old(self).status == ActorStatus::Draining ==> *final(self) == (State {
                status: ActorStatus::Stopped,
                ..*old(self)
            }) && plan_of(cmds@) == seq![PlanStep::Close],
            old(self).status != ActorStatus::Draining ==> *final(self) == *old(self) && cmds@.len()
                == 0,
    {
        if self.status == ActorStatus::Draining {
            self.status = ActorStatus::Stopped;
            let mut cmds: Vec<Command> = Vec::new();
            cmds.push(Command::CloseAll);
            proof {
                assert_seqs_equal!(plan_of(cmds@) == seq![PlanStep::Close]);
            }
            cmds
        } else {
            Vec::new()
        }
    }

    /// Consume one mailbox event and answer with outbound commands. All
    /// state mutation happens here, one event at a time, in arrival order.
    /// A stopped actor absorbs everything; a draining actor only waits for
    /// the handoff confirmation; membership operations on unknown peers
    /// and duplicate broadcasts degrade to no-ops, never to failures.
    pub fn handle(&mut self, msg: ServerMsg) -> (cmds: Vec<Command>)
        requires
            old(self).wf(),
            old(self).next_seq < u64::MAX,
        ensures
            final(self).wf(),
            final(self).self_id == old(self).self_id,
            old(self).status == ActorStatus::Stopped ==> *final(self) == *old(self) && cmds@.len()
                == 0,
            old(self).status == ActorStatus::Draining ==> (msg matches ServerMsg::HandoffConfirmed
                ==> *final(self) == (State { status: ActorStatus::Stopped, ..*old(self) })
                && plan_of(cmds@) == seq![PlanStep::Close]) && (!(msg
                matches ServerMsg::HandoffConfirmed) ==> *final(self) == *old(self) && cmds@.len()
                == 0),
            old(self).status == ActorStatus::Running ==> match msg {
                ServerMsg::PeerConnected(n) => {
                    &&& final(self).status == ActorStatus::Running
                    &&& cmds@.len() == 0
                    &&& (n.id == old(self).self_id || old(self).view.member(n.id)) ==> (final(self).view.eager@ == old(self).view.eager@ && final(self).view.lazy@ == old(self).view.lazy@)
                    &&& (n.id != old(self).self_id && !old(self).view.member(n.id) && old(self).view.eager@.len() < old(self).view.k_eager) ==> final(self).view.eager@
                        == old(self).view.eager@.push(n)
                    &&& (n.id != old(self).self_id && !old(self).view.member(n.id) && old(self).view.eager@.len() >= old(self).view.k_eager) ==> final(self).view.lazy@
                        == old(self).view.lazy@.push(n)
                    &&& final(self).health == spec_state_health(*final(self))
                    &&& final(self).log == old(self).log
                    &&& final(self).next_seq == old(self).next_seq
                },
                ServerMsg::PeerDisconnected(n) => {
                    &&& *final(self) == (State {
                        unreachable: final(self).unreachable,
                        health: final(self).health,
                        ..*old(self)
                    })
                    &&& cmds@.len() == 0
                    &&& (forall|y: u128|
                        final(self).unreachable@.contains(y) <==> (old(self).unreachable@.contains(y) || y == n.id))
                    &&& final(self).health == spec_state_health(*final(self))
                },
                ServerMsg::Message(b, from) => {
                    &&& final(self).log.entries@ == spec_apply(old(self).log.entries@, b)
                    &&& (!seen(old(self).log.entries@, b.id) ==> plan_of(cmds@) == spec_push_plan(
                        old(self).view,
                        from,
                        b.id,
                        b.payload@,
                    ) && final(self).view == old(self).view)
                    &&& (seen(old(self).log.entries@, b.id) ==> cmds@.len() == 0 && final(self).log.entries@ == old(self).log.entries@ && (old(self).view.eager_has(from) ==> (forall|n: Node|
                        final(self).view.eager@.contains(n) <==> (old(self).view.eager@.contains(n)
                            && n.id != from))) && (!old(self).view.eager_has(from) ==> final(self).view.eager@ == old(self).view.eager@ && final(self).view.lazy@ == old(self).view.lazy@) && final(self).health == spec_state_health(*final(self)))
                    &&& final(self).status == ActorStatus::Running
                },
                ServerMsg::DigestReceived(id, from) => {
                    &&& (!seen(old(self).log.entries@, id) ==> *final(self) == *old(self)
                        && plan_of(cmds@) == seq![PlanStep::Repair { peer: from, id }])
                    &&& (seen(old(self).log.entries@, id) ==> cmds@.len() == 0 && final(self).log
                        == old(self).log && (old(self).view.lazy_has(from) ==> (forall|n: Node|
                        final(self).view.eager@.contains(n) <==> (old(self).view.eager@.contains(n)
                            || (old(self).view.lazy@.contains(n) && n.id == from)))) && (!old(self).view.lazy_has(from) ==> final(self).view.eager@ == old(self).view.eager@
                        && final(self).view.lazy@ == old(self).view.lazy@) && final(self).health
                        == spec_state_health(*final(self)))
                },
                ServerMsg::RepairRequested(id, from) => {
                    &&& *final(self) == *old(self)
                    &&& (seen(old(self).log.entries@, id) ==> plan_of(cmds@) == seq![
                        PlanStep::Full {
                            peer: from,
                            id,
                            payload: payload_of(old(self).log.entries@, id),
                        },
                    ])
                    &&& (!seen(old(self).log.entries@, id) ==> cmds@.len() == 0)
                },
                ServerMsg::Shutdown(reason) => {
                    &&& final(self).status == ActorStatus::Draining
                    &&& final(self).shutdown_reason == Some(reason)
                    &&& final(self).next_seq == old(self).next_seq + 1
                    &&& plan_of(cmds@) == spec_push_plan(
                        old(self).view,
                        old(self).self_id,
                        BroadcastId { origin: old(self).self_id, seq: old(self).next_seq },
                        Seq::<u8>::empty(),
                    )
                    &&& final(self).view == old(self).view
                    &&& final(self).graph == old(self).graph
                },
                ServerMsg::KillNode(n) => {
                    &&& cmds@.len() == 0
                    &&& !final(self).view.member(n.id)
                    &&& !final(self).graph.has_vertex(n.id)
                    &&& (forall|m: Node|
                        final(self).view.eager@.contains(m) <==> (old(self).view.eager@.contains(m)
                            && m.id != n.id))
                    &&& (forall|m: Node|
                        final(self).view.lazy@.contains(m) <==> (old(self).view.lazy@.contains(m)
                            && m.id != n.id))
                    &&& (forall|w: Vertex|
                        final(self).graph.vertices@.contains(w) <==> (old(self).graph.vertices@.contains(w) && w.id != n.id))
                    &&& final(self).health == spec_state_health(*final(self))
                    &&& final(self).status == ActorStatus::Running
                    &&& final(self).log == old(self).log
                },
                ServerMsg::TimerTick(kind) => {
                    &&& cmds@.len() == 0
                    &&& (kind == TimerKind::SpanningCheck ==> *final(self) == (State {
                        graph: final(self).graph,
                        ..*old(self)
                    }) && final(self).graph.vertices@ == old(self).graph.vertices@ && final(self).graph.edges@ == old(self).graph.edges@ && final(self).graph.spanning == old(self).graph.spec_spanning())
                    &&& (kind == TimerKind::HealthCheck ==> *final(self) == (State {
                        health: spec_state_health(*old(self)),
                        ..*old(self)
                    }))
                    &&& (kind == TimerKind::FailureSweep ==> final(self).unreachable@.len() == 0
                        && final(self).health == spec_state_health(*final(self)))
                },
                ServerMsg::HandoffConfirmed => {
                    &&& *final(self) == *old(self)
                    &&& cmds@.len() == 0
                },
            },
    {
        let st = self.status;
        match st {
            ActorStatus::Stopped => Vec::new(),
            ActorStatus::Draining => {
                match msg {
                    ServerMsg::HandoffConfirmed => self.on_handoff_confirmed(),
                    _ => Vec::new(),
                }
            },
            ActorStatus::Running => {
                match msg {
                    ServerMsg::PeerConnected(n) => {
                        self.on_peer_connected(n);
                        Vec::new()
                    },
                    ServerMsg::PeerDisconnected(n) => {
                        self.on_peer_disconnected(n);
                        Vec::new()
                    },
                    ServerMsg::Message(b, from) => self.receive_broadcast(b, from),
                    ServerMsg::DigestReceived(id, from) => self.on_digest(id, from),
                    ServerMsg::RepairRequested(id, from) => self.on_repair_request(id, from),
                    ServerMsg::Shutdown(reason) => self.request_shutdown(reason),
                    ServerMsg::KillNode(n) => {
                        self.kill_node(n.id);
                        Vec::new()
                    },
                    ServerMsg::TimerTick(kind) => {
                        self.handle_timer(kind);
                        Vec::new()
                    },
                    ServerMsg::HandoffConfirmed => Vec::new(),
                }
            },
        }
    }
}

} // verus!
