//! Dissemination log: the ordered, deduplicated record of broadcasts this
//! server has seen, with an idempotent apply.

use vstd::prelude::*;
use vstd::assert_seqs_equal;

verus! {

/// A broadcast's identity: the originating server plus the origin-local
/// sequence number, which makes it unique across the cluster without any
/// coordination.
#[derive(Clone, Copy, Debug, PartialEq, Eq, Structural)]
pub struct BroadcastId {
    pub origin: u128,
    pub seq: u64,
}

/// A broadcast message: its identity and an opaque payload. The core never
/// looks inside the payload; the transport decides its wire form.
#[derive(Debug)]
pub struct Broadcast {
    pub id: BroadcastId,
    pub payload: Vec<u8>,
}

/// What `receive` reports for one broadcast.
#[derive(Clone, Copy, Debug, PartialEq, Eq, Structural)]
pub enum ReceiveOutcome {
    /// The broadcast was new: it was appended to the log.
    Accepted,
    /// The broadcast's id was already in the log; nothing changed.
    Duplicate,
}

/// True when some entry of `s` carries the id `id`.
pub open spec fn seen(s: Seq<Broadcast>, id: BroadcastId) -> bool {
    exists|i: int| 0 <= i < s.len() && s[i].id == id
}

/// True when no two entries of `s` carry the same id.
pub open spec fn entry_ids_unique(s: Seq<Broadcast>) -> bool {
    forall|i: int, j: int| 0 <= i < j < s.len() ==> s[i].id != s[j].id
}

/// What one application of a broadcast does to the log: a no-op on an id
/// already seen, an append otherwise.
pub open spec fn spec_apply(s: Seq<Broadcast>, b: Broadcast) -> Seq<Broadcast> {
    if seen(s, b.id) {
        s
    } else {
        s.push(b)
    }
}

/// The ordered record of applied broadcasts. Append-only: entries are
/// never rewritten or dropped, and no id occurs twice.
pub struct DisseminationLog {
    pub entries: Vec<Broadcast>,
}

impl DisseminationLog {
    /// No id occurs twice in the log.
    pub open spec fn wf(self) -> bool {
        entry_ids_unique(self.entries@)
    }

    pub fn new() -> (log: DisseminationLog)
        ensures
            log.wf(),
            log.entries@.len() == 0,
    {
        DisseminationLog { entries: Vec::new() }
    }

    pub fn len(&self) -> (n: usize)
        ensures
            n == self.entries@.len(),
    {
        self.entries.len()
    }

    /// Duplicate detection: has a broadcast with this id been applied?
    pub fn is_seen(&self, id: BroadcastId) -> (r: bool)
        ensures
            r == seen(self.entries@, id),
    {
        match find_entry(&self.entries, id) {
            Some(_) => true,
            None => false,
        }
    }

    /// Apply one broadcast. Idempotent: an already-seen id is reported as
    /// `Duplicate` and leaves the log untouched, never an error; a new id
    /// is appended and marked seen.
    pub fn receive(&mut self, b: Broadcast) -> (out: ReceiveOutcome)
        requires
            old(self).wf(),
        ensures
            final(self).wf(),
            final(self).entries@ == spec_apply(old(self).entries@, b),
            (out == ReceiveOutcome::Duplicate) <==> seen(old(self).entries@, b.id),
            out == ReceiveOutcome::Duplicate ==> final(self).entries@ == old(self).entries@,
            seen(final(self).entries@, b.id),
    {
        let ghost pre = self.entries@;
        if self.is_seen(b.id) {
            ReceiveOutcome::Duplicate
        } else {
            self.entries.push(b);
            proof {
                assert(self.entries@.last().id == b.id);
                assert(seen(self.entries@, b.id));
                assert forall|k: int, l: int|
                    0 <= k < l < self.entries@.len() implies self.entries@[k].id
                    != self.entries@[l].id by {
                    if l < pre.len() {
                        assert(pre[k].id != pre[l].id);
                    } else {
                        assert(self.entries@[l] == b);
                        assert(pre[k].id != b.id) by {
                            if pre[k].id == b.id {
                                assert(seen(pre, b.id));
                            }
                        }
                    }
                }
            }
            ReceiveOutcome::Accepted
        }
    }

    /// Look up the applied broadcast with the given id, the repair path's
    /// source of full payloads. Returns it exactly when the id was seen.
    pub fn get(&self, id: BroadcastId) -> (r: Option<&Broadcast>)
        ensures
            match r {
                Some(b) => b.id == id && self.entries@.contains(*b),
                None => !seen(self.entries@, id),
            },
    {
        match find_entry(&self.entries, id) {
            Some(i) => {
                let b = &self.entries[i];
                proof {
                    assert(self.entries@.contains(self.entries@[i as int]));
                }
                Some(b)
            },
            None => None,
        }
    }
}

/// Find the index of the entry carrying `id`, if any.
fn find_entry(v: &Vec<Broadcast>, id: BroadcastId) -> (r: Option<usize>)
    ensures
        match r {
            Some(i) => i < v@.len() && v@[i as int].id == id && seen(v@, id),
            None => !seen(v@, id),
        },
{
    let mut i: usize = 0;
    while i < v.len()
        invariant
            i <= v@.len(),
            forall|k: int| 0 <= k < i ==> v@[k].id != id,
        decreases v@.len() - i,
    {
        if v[i].id.origin == id.origin && v[i].id.seq == id.seq {
            return Some(i);
        }
        i += 1;
    }
    None
}

/// An exact copy of a payload, element by element.
pub fn clone_bytes(v: &Vec<u8>) -> (r: Vec<u8>)
    ensures
        r@ == v@,
{
    let mut r: Vec<u8> = Vec::new();
    let mut i: usize = 0;
    while i < v.len()
        invariant
            i <= v@.len(),
            r@ == v@.take(i as int),
        decreases v@.len() - i,
    {
        r.push(v[i]);
        proof {
            assert(r@ == v@.take(i + 1 as int)) by {
                assert_seqs_equal!(r@ == v@.take(i + 1 as int));
            }
        }
        i += 1;
    }
    proof {
        assert(v@.take(v@.len() as int) == v@) by {
            assert_seqs_equal!(v@.take(v@.len() as int) == v@);
        }
    }
    r
}

/// An exact copy of a broadcast: same id, same payload bytes.
pub fn clone_broadcast(b: &Broadcast) -> (r: Broadcast)
    ensures
        r.id == b.id,
        r.payload@ == b.payload@,
{
    Broadcast { id: b.id, payload: clone_bytes(&b.payload) }
}

/// Law: applying a broadcast is idempotent. A second application of `b`
/// leaves the log exactly as the first left it, and after the first
/// application `b`'s id is seen, so the second application reports
/// `Duplicate` under `receive`'s contract.
pub proof fn lemma_apply_idempotent(s: Seq<Broadcast>, b: Broadcast)
    ensures
        seen(spec_apply(s, b), b.id),
        spec_apply(spec_apply(s, b), b) == spec_apply(s, b),
{
    if seen(s, b.id) {
    } else {
        let t = s.push(b);
        assert(t[s.len() as int].id == b.id);
        assert(seen(t, b.id));
    }
}

} // verus!
