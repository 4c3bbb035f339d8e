//! Peer view: the per-server membership, split into an eager set (full
//! payloads are pushed there at once) and a lazy set (only digests go
//! there, for redundancy and repair).

use vstd::prelude::*;

use crate::node::Node;

verus! {

/// True when some entry of `s` carries the id `id`.
pub open spec fn has_id(s: Seq<Node>, id: u128) -> bool {
    exists|i: int| 0 <= i < s.len() && s[i].id == id
}

/// True when no two entries of `s` carry the same id.
pub open spec fn ids_unique(s: Seq<Node>) -> bool {
    forall|i: int, j: int| 0 <= i < j < s.len() ==> s[i].id != s[j].id
}

/// Where `add_peer` placed a peer, if anywhere.
#[derive(Clone, Copy, Debug, PartialEq, Eq, Structural)]
pub enum AdmitOutcome {
    Eager,
    Lazy,
    Rejected,
}

/// One server's view of its peers. Both sets are kept as vectors of
/// identities with pairwise distinct ids; the sets are disjoint and never
/// contain the owning server itself.
pub struct PeerView {
    pub self_id: u128,
    pub k_eager: usize,
    pub eager: Vec<Node>,
    pub lazy: Vec<Node>,
}

impl PeerView {
    pub open spec fn eager_has(self, id: u128) -> bool {
        has_id(self.eager@, id)
    }

    pub open spec fn lazy_has(self, id: u128) -> bool {
        has_id(self.lazy@, id)
    }

    /// Membership in either set.
    pub open spec fn member(self, id: u128) -> bool {
        self.eager_has(id) || self.lazy_has(id)
    }

    /// The membership invariant: within each set ids are distinct, the
    /// two sets are disjoint, and the owning server is in neither.
    pub open spec fn wf(self) -> bool {
        &&& ids_unique(self.eager@)
        &&& ids_unique(self.lazy@)
        &&& forall|x: u128| #[trigger] has_id(self.eager@, x) ==> !has_id(self.lazy@, x)
        &&& !has_id(self.eager@, self.self_id)
        &&& !has_id(self.lazy@, self.self_id)
    }

    /// A fresh, empty view for the server with id `self_id`, pushing
    /// eagerly to at most `k_eager` peers.
    pub fn new(self_id: u128, k_eager: usize) -> (v: PeerView)
        ensures
            v.wf(),
            v.self_id == self_id,
            v.k_eager == k_eager,
            v.eager@.len() == 0,
            v.lazy@.len() == 0,
    {
        PeerView { self_id, k_eager, eager: Vec::new(), lazy: Vec::new() }
    }

    pub fn eager_len(&self) -> (n: usize)
        ensures
            n == self.eager@.len(),
    {
        self.eager.len()
    }

    pub fn lazy_len(&self) -> (n: usize)
        ensures
            n == self.lazy@.len(),
    {
        self.lazy.len()
    }

    pub fn is_eager(&self, id: u128) -> (r: bool)
        ensures
            r == self.eager_has(id),
    {
        find_id(&self.eager, id).is_some()
    }

    pub fn is_lazy(&self, id: u128) -> (r: bool)
        ensures
            r == self.lazy_has(id),
    {
        find_id(&self.lazy, id).is_some()
    }

    pub fn contains(&self, id: u128) -> (r: bool)
        ensures
            r == self.member(id),
    {
        self.is_eager(id) || self.is_lazy(id)
    }

    /// Add a newly connected peer: eagerly while there is capacity, lazily
    /// otherwise. Admitting the owning server itself or a peer already in
    /// either set is rejected as a no-op.
    pub fn add_peer(&mut self, peer: Node) -> (r: AdmitOutcome)
        requires
            old(self).wf(),
        ensures
            final(self).wf(),
            final(self).self_id == old(self).self_id,
            final(self).k_eager == old(self).k_eager,
            (r == AdmitOutcome::Rejected) <==> (peer.id == old(self).self_id || old(self).member(
                peer.id,
            )),
            r == AdmitOutcome::Rejected ==> final(self).eager@ == old(self).eager@
                && final(self).lazy@ == old(self).lazy@,
            r == AdmitOutcome::Eager ==> final(self).eager@ == old(self).eager@.push(peer)
                && final(self).lazy@ == old(self).lazy@ && old(self).eager@.len() < old(
                self,
            ).k_eager,
            r == AdmitOutcome::Lazy ==> final(self).lazy@ == old(self).lazy@.push(peer)
                && final(self).eager@ == old(self).eager@ && old(self).eager@.len() >= old(
                self,
            ).k_eager,
    {
        if peer.id == self.self_id || self.contains(peer.id) {
            AdmitOutcome::Rejected
        } else if self.eager.len() < self.k_eager {
            self.eager.push(peer);
            assert forall|x: u128| #[trigger] has_id(self.eager@, x) implies x == peer.id || has_id(
                old(self).eager@,
                x,
            ) by {
                let i = choose|i: int| 0 <= i < self.eager@.len() && self.eager@[i].id == x;
                if i < old(self).eager@.len() {
                    assert(old(self).eager@[i].id == x);
                }
            }
            AdmitOutcome::Eager
        } else {
            self.lazy.push(peer);
            assert forall|x: u128| #[trigger] has_id(self.lazy@, x) implies x == peer.id || has_id(
                old(self).lazy@,
                x,
            ) by {
                let i = choose|i: int| 0 <= i < self.lazy@.len() && self.lazy@[i].id == x;
                if i < old(self).lazy@.len() {
                    assert(old(self).lazy@[i].id == x);
                }
            }
            assert forall|x: u128| #[trigger] has_id(self.eager@, x) implies !has_id(
                self.lazy@,
                x,
            ) by {
                assert(has_id(old(self).eager@, x));
            }
            AdmitOutcome::Lazy
        }
    }

    /// Move the peer with id `peer_id` from the eager set to the lazy set.
    /// A no-op when no eager peer carries that id.
    pub fn demote(&mut self, peer_id: u128) -> (moved: bool)
        requires
            old(self).wf(),
        ensures
            final(self).wf(),
            final(self).self_id == old(self).self_id,
            final(self).k_eager == old(self).k_eager,
            moved == old(self).eager_has(peer_id),
            !moved ==> final(self).eager@ == old(self).eager@ && final(self).lazy@ == old(
                self,
            ).lazy@,
            moved ==> {
                &&& final(self).eager@.len() == old(self).eager@.len() - 1
                &&& final(self).lazy@.len() == old(self).lazy@.len() + 1
                &&& forall|n: Node|
                    final(self).eager@.contains(n) <==> (old(self).eager@.contains(n) && n.id
                        != peer_id)
                &&& forall|n: Node|
                    final(self).lazy@.contains(n) <==> (old(self).lazy@.contains(n) || (old(
                        self,
                    ).eager@.contains(n) && n.id == peer_id))
            },
    {
        match find_id(&self.eager, peer_id) {
            None => false,
            Some(i) => {
                let n = self.eager.remove(i);
                self.lazy.push(n);
                proof {
                    lemma_removed_contains(old(self).eager@, i as int);
                    assert forall|x: u128| #[trigger] has_id(self.eager@, x) implies has_id(
                        old(self).eager@,
                        x,
                    ) by {
                        let k = choose|k: int| 0 <= k < self.eager@.len() && self.eager@[k].id == x;
                        assert(old(self).eager@.contains(self.eager@[k]));
                        let m = choose|m: int|
                            0 <= m < old(self).eager@.len() && old(self).eager@[m] == self.eager@[k];
                        assert(old(self).eager@[m].id == x);
                    }
                    assert forall|x: u128| #[trigger] has_id(self.lazy@, x) implies has_id(
                        old(self).lazy@,
                        x,
                    ) || x == peer_id by {
                        let k = choose|k: int| 0 <= k < self.lazy@.len() && self.lazy@[k].id == x;
                        if k < old(self).lazy@.len() {
                            assert(old(self).lazy@[k].id == x);
                        }
                    }
                    assert(ids_unique(self.lazy@)) by {
                        assert(forall|k: int|
                            0 <= k < old(self).lazy@.len() ==> self.lazy@[k] == old(self).lazy@[k]);
                        assert(self.lazy@.last().id == peer_id);
                        assert(!has_id(old(self).lazy@, peer_id));
                    }
                    assert(ids_unique(self.eager@)) by {
                        assert forall|k: int, l: int|
                            0 <= k < l < self.eager@.len() implies self.eager@[k].id
                            != self.eager@[l].id by {
                            assert(old(self).eager@.contains(self.eager@[k]));
                            assert(old(self).eager@.contains(self.eager@[l]));
                        }
                    }
                }
                assert(self.lazy@.contains(old(self).eager@[i as int])) by {
                    assert(self.lazy@.last() == old(self).eager@[i as int]);
                }
                assert forall|n: Node| #[trigger]
                    self.lazy@.contains(n) implies (old(self).lazy@.contains(n) || (old(
                    self,
                ).eager@.contains(n) && n.id == peer_id)) by {
                    let k = choose|k: int| 0 <= k < self.lazy@.len() && self.lazy@[k] == n;
                    if k < old(self).lazy@.len() {
                        assert(old(self).lazy@[k] == n);
                    } else {
                        assert(n == old(self).eager@[i as int]);
                        assert(old(self).eager@.contains(n));
                    }
                }
                assert forall|n: Node|
                    (old(self).lazy@.contains(n) || (old(self).eager@.contains(n) && n.id
                        == peer_id)) implies #[trigger] self.lazy@.contains(n) by {
                    if old(self).lazy@.contains(n) {
                        let k = choose|k: int|
                            0 <= k < old(self).lazy@.len() && old(self).lazy@[k] == n;
                        assert(self.lazy@[k] == n);
                    } else {
                        let k = choose|k: int|
                            0 <= k < old(self).eager@.len() && old(self).eager@[k] == n;
                        assert(k == i) by {
                            if k != i {
                                assert(old(self).eager@[k].id != old(self).eager@[i as int].id);
                            }
                        }
                        assert(self.lazy@.last() == n);
                    }
                }
                true
            },
        }
    }

    /// Move the peer with id `peer_id` from the lazy set to the eager set.
    /// A no-op when no lazy peer carries that id.
    pub fn promote(&mut self, peer_id: u128) -> (moved: bool)
        requires
            old(self).wf(),
        ensures
            final(self).wf(),
            final(self).self_id == old(self).self_id,
            final(self).k_eager == old(self).k_eager,
            moved == old(self).lazy_has(peer_id),
            !moved ==> final(self).eager@ == old(self).eager@ && final(self).lazy@ == old(
                self,
            ).lazy@,
            moved ==> {
                &&& final(self).lazy@.len() == old(self).lazy@.len() - 1
                &&& final(self).eager@.len() == old(self).eager@.len() + 1
                &&& forall|n: Node|
                    final(self).lazy@.contains(n) <==> (old(self).lazy@.contains(n) && n.id
                        != peer_id)
                &&& forall|n: Node|
                    final(self).eager@.contains(n) <==> (old(self).eager@.contains(n) || (old(
                        self,
                    ).lazy@.contains(n) && n.id == peer_id))
            },
    {
        match find_id(&self.lazy, peer_id) {
            None => false,
            Some(i) => {
                let n = self.lazy.remove(i);
                self.eager.push(n);
                proof {
                    lemma_removed_contains(old(self).lazy@, i as int);
                    assert forall|x: u128| #[trigger] has_id(self.lazy@, x) implies has_id(
                        old(self).lazy@,
                        x,
                    ) by {
                        let k = choose|k: int| 0 <= k < self.lazy@.len() && self.lazy@[k].id == x;
                        assert(old(self).lazy@.contains(self.lazy@[k]));
                        let m = choose|m: int|
                            0 <= m < old(self).lazy@.len() && old(self).lazy@[m] == self.lazy@[k];
                        assert(old(self).lazy@[m].id == x);
                    }
                    assert forall|x: u128| #[trigger] has_id(self.eager@, x) implies has_id(
                        old(self).eager@,
                        x,
                    ) || x == peer_id by {
                        let k = choose|k: int| 0 <= k < self.eager@.len() && self.eager@[k].id == x;
                        if k < old(self).eager@.len() {
                            assert(old(self).eager@[k].id == x);
                        }
                    }
                    assert(ids_unique(self.eager@)) by {
                        assert(forall|k: int|
                            0 <= k < old(self).eager@.len() ==> self.eager@[k] == old(
                                self,
                            ).eager@[k]);
                        assert(self.eager@.last().id == peer_id);
                        assert(!has_id(old(self).eager@, peer_id));
                    }
                    assert(ids_unique(self.lazy@)) by {
                        assert forall|k: int, l: int|
                            0 <= k < l < self.lazy@.len() implies self.lazy@[k].id
                            != self.lazy@[l].id by {
                            assert(old(self).lazy@.contains(self.lazy@[k]));
                            assert(old(self).lazy@.contains(self.lazy@[l]));
                        }
                    }
                }
                assert forall|n: Node| #[trigger]
                    self.eager@.contains(n) implies (old(self).eager@.contains(n) || (old(
                    self,
                ).lazy@.contains(n) && n.id == peer_id)) by {
                    let k = choose|k: int| 0 <= k < self.eager@.len() && self.eager@[k] == n;
                    if k < old(self).eager@.len() {
                        assert(old(self).eager@[k] == n);
                    } else {
                        assert(n == old(self).lazy@[i as int]);
                        assert(old(self).lazy@.contains(n));
                    }
                }
                assert forall|n: Node|
                    (old(self).eager@.contains(n) || (old(self).lazy@.contains(n) && n.id
                        == peer_id)) implies #[trigger] self.eager@.contains(n) by {
                    if old(self).eager@.contains(n) {
                        let k = choose|k: int|
                            0 <= k < old(self).eager@.len() && old(self).eager@[k] == n;
                        assert(self.eager@[k] == n);
                    } else {
                        let k = choose|k: int|
                            0 <= k < old(self).lazy@.len() && old(self).lazy@[k] == n;
                        assert(k == i) by {
                            if k != i {
                                assert(old(self).lazy@[k].id != old(self).lazy@[i as int].id);
                            }
                        }
                        assert(self.eager@.last() == n);
                    }
                }
                true
            },
        }
    }

    /// Delete the peer with id `peer_id` from both sets. Idempotent: a
    /// second call with the same id is a no-op.
    pub fn remove(&mut self, peer_id: u128) -> (was_member: bool)
        requires
            old(self).wf(),
        ensures
            final(self).wf(),
            final(self).self_id == old(self).self_id,
            final(self).k_eager == old(self).k_eager,
            was_member == old(self).member(peer_id),
            !final(self).member(peer_id),
            forall|n: Node|
                final(self).eager@.contains(n) <==> (old(self).eager@.contains(n) && n.id
                    != peer_id),
            forall|n: Node|
                final(self).lazy@.contains(n) <==> (old(self).lazy@.contains(n) && n.id
                    != peer_id),
    {
        let in_eager = remove_id(&mut self.eager, peer_id);
        let in_lazy = remove_id(&mut self.lazy, peer_id);
        assert forall|x: u128| #[trigger] has_id(self.eager@, x) implies has_id(
            old(self).eager@,
            x,
        ) by {
            let k = choose|k: int| 0 <= k < self.eager@.len() && self.eager@[k].id == x;
            assert(old(self).eager@.contains(self.eager@[k]));
            let m = choose|m: int|
                0 <= m < old(self).eager@.len() && old(self).eager@[m] == self.eager@[k];
            assert(old(self).eager@[m].id == x);
        }
        assert(!has_id(self.eager@, self.self_id)) by {
            if has_id(self.eager@, self.self_id) {
                assert(has_id(old(self).eager@, self.self_id));
            }
        }
        assert forall|x: u128| #[trigger] has_id(self.eager@, x) implies !has_id(
            self.lazy@,
            x,
        ) by {
            assert(has_id(old(self).eager@, x));
            if has_id(self.lazy@, x) {
                let k = choose|k: int| 0 <= k < self.lazy@.len() && self.lazy@[k].id == x;
                assert(self.lazy@.contains(self.lazy@[k]));
                let m = choose|m: int|
                    0 <= m < old(self).lazy@.len() && old(self).lazy@[m] == self.lazy@[k];
                assert(old(self).lazy@[m].id == x);
            }
        }
        assert(!has_id(self.lazy@, self.self_id)) by {
            if has_id(self.lazy@, self.self_id) {
                let k = choose|k: int|
                    0 <= k < self.lazy@.len() && self.lazy@[k].id == self.self_id;
                assert(old(self).lazy@.contains(self.lazy@[k]));
                let m = choose|m: int|
                    0 <= m < old(self).lazy@.len() && old(self).lazy@[m] == self.lazy@[k];
                assert(old(self).lazy@[m].id == self.self_id);
            }
        }
        in_eager || in_lazy
    }
}

/// Find the index of the entry carrying `id`, if any.
pub(crate) fn find_id(v: &Vec<Node>, id: u128) -> (r: Option<usize>)
    ensures
        match r {
            Some(i) => i < v@.len() && v@[i as int].id == id && has_id(v@, id),
            None => !has_id(v@, id),
        },
{
    let mut i: usize = 0;
    while i < v.len()
        invariant
            i <= v@.len(),
            forall|k: int| 0 <= k < i ==> v@[k].id != id,
        decreases v@.len() - i,
    {
        if v[i].id == id {
            return Some(i);
        }
        i += 1;
    }
    None
}

/// After removing index `i` from a sequence with pairwise distinct ids,
/// exactly the other entries remain.
proof fn lemma_removed_contains(s: Seq<Node>, i: int)
    requires
        0 <= i < s.len(),
        ids_unique(s),
    ensures
        forall|n: Node| #[trigger]
            s.remove(i).contains(n) <==> (s.contains(n) && n.id != s[i].id),
        ids_unique(s.remove(i)),
{
    let t = s.remove(i);
    assert forall|k: int, l: int| 0 <= k < l < t.len() implies t[k].id != t[l].id by {
        let k0: int = if k < i { k } else { k + 1 };
        let l0: int = if l < i { l } else { l + 1 };
        assert(t[k] == s[k0]);
        assert(t[l] == s[l0]);
    }
    assert forall|n: Node| #[trigger] t.contains(n) implies (s.contains(n) && n.id != s[i].id) by {
        let k = choose|k: int| 0 <= k < t.len() && t[k] == n;
        if k < i {
            assert(s[k] == n);
        } else {
            assert(s[k + 1] == n);
        }
    }
    assert forall|n: Node| (s.contains(n) && n.id != s[i].id) implies #[trigger] t.contains(n) by {
        let k = choose|k: int| 0 <= k < s.len() && s[k] == n;
        if k < i {
            assert(t[k] == n);
        } else {
            assert(t[k - 1] == n);
        }
    }
}

/// Remove the (at most one, by uniqueness) entry carrying `id`.
fn remove_id(v: &mut Vec<Node>, id: u128) -> (found: bool)
    requires
        ids_unique(old(v)@),
    ensures
        found == has_id(old(v)@, id),
        ids_unique(final(v)@),
        !has_id(final(v)@, id),
        forall|n: Node| final(v)@.contains(n) <==> (old(v)@.contains(n) && n.id != id),
        !found ==> final(v)@ == old(v)@,
{
    match find_id(v, id) {
        None => {
            assert forall|n: Node| v@.contains(n) implies n.id != id by {
                let k = choose|k: int| 0 <= k < v@.len() && v@[k] == n;
                assert(v@[k].id != id);
            }
            false
        },
        Some(i) => {
            let ghost pre = v@;
            v.remove(i);
            proof {
                lemma_removed_contains(pre, i as int);
                assert(!has_id(v@, id)) by {
                    if has_id(v@, id) {
                        let k = choose|k: int| 0 <= k < v@.len() && v@[k].id == id;
                        assert(v@.contains(v@[k]));
                        assert(pre.contains(v@[k]) && v@[k].id != pre[i as int].id);
                    }
                }
            }
            true
        },
    }
}

/// Law: the membership invariant, which `new` establishes and every
/// operation's contract preserves, means the eager and lazy sets are
/// disjoint and the owning server belongs to neither. Since `add_peer`,
/// `promote`, `demote` and `remove` each turn a well-formed view into a
/// well-formed view, the two properties hold after any sequence of them.
pub proof fn lemma_membership_invariant(v: PeerView)
    requires
        v.wf(),
    ensures
        forall|x: u128| !(v.eager_has(x) && v.lazy_has(x)),
        !v.member(v.self_id),
{
    assert forall|x: u128| !(v.eager_has(x) && v.lazy_has(x)) by {
        if v.eager_has(x) {
            assert(!has_id(v.lazy@, x));
        }
    }
}

} // verus!
