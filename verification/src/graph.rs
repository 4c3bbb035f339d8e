//! Topology graph: an undirected graph over peer identities with
//! incremental updates and a periodic spanning-tree check.
//!
//! Edges are relations, not ownership: they are kept in a single table of
//! symmetric pairs, and vertices are looked up by id.

use vstd::prelude::*;
use vstd::seq_lib::seq_to_set_is_finite;
use vstd::set_lib::lemma_len_subset;
use vstd::set_lib::lemma_subset_equality;

verus! {

/// One vertex of the topology graph: a peer identity, named by id.
#[derive(Clone, Copy, Debug, PartialEq, Eq, Structural)]
pub struct Vertex {
    pub id: u128,
}

/// One undirected edge, stored once in either orientation.
#[derive(Clone, Copy, Debug, PartialEq, Eq, Structural)]
pub struct Edge {
    pub a: Vertex,
    pub b: Vertex,
}

/// The same unordered pair of endpoints, in either orientation.
pub open spec fn edge_eq(e: Edge, f: Edge) -> bool {
    (e.a == f.a && e.b == f.b) || (e.a == f.b && e.b == f.a)
}

/// True when `es` links `x` and `y`, in either orientation.
pub open spec fn has_edge(es: Seq<Edge>, x: Vertex, y: Vertex) -> bool {
    es.contains(Edge { a: x, b: y }) || es.contains(Edge { a: y, b: x })
}

/// No unordered pair occurs twice.
pub open spec fn edges_distinct(es: Seq<Edge>) -> bool {
    forall|k: int, l: int| 0 <= k < l < es.len() ==> !edge_eq(es[k], es[l])
}

/// A walk through the graph: consecutive vertices are joined by edges.
pub open spec fn is_path(es: Seq<Edge>, p: Seq<Vertex>) -> bool {
    p.len() >= 1 && forall|k: int| 0 <= k < p.len() - 1 ==> has_edge(es, #[trigger] p[k], p[k + 1])
}

/// `to` can be walked to from `from` along edges of `es`. Every vertex
/// reaches itself by the one-vertex walk.
pub open spec fn reachable(es: Seq<Edge>, from: Vertex, to: Vertex) -> bool {
    exists|p: Seq<Vertex>| is_path(es, p) && p.first() == from && p.last() == to
}

/// The communication graph of the cluster as this server sees it, with a
/// cached answer of the last spanning-tree check. The ideal shape is a
/// spanning tree: the minimal edge set that still reaches every peer.
pub struct Graph {
    pub vertices: Vec<Vertex>,
    pub edges: Vec<Edge>,
    pub spanning: bool,
}

impl Graph {
    /// Structural invariant: vertices are distinct, every edge joins two
    /// distinct existing vertices, and no edge occurs twice.
    pub open spec fn wf(self) -> bool {
        &&& self.vertices@.no_duplicates()
        &&& forall|k: int|
            0 <= k < self.edges@.len() ==> (#[trigger] self.edges@[k]).a != self.edges@[k].b
                && self.vertices@.contains(self.edges@[k].a) && self.vertices@.contains(
                self.edges@[k].b,
            )
        &&& edges_distinct(self.edges@)
    }

    pub open spec fn has_vertex(self, id: u128) -> bool {
        self.vertices@.contains(Vertex { id })
    }

    /// Every vertex can be walked to from the first one: the graph is one
    /// connected component. An empty graph is not connected by convention.
    pub open spec fn connected_over(self) -> bool {
        self.vertices@.len() > 0 && forall|v: Vertex|
            self.vertices@.contains(v) ==> reachable(self.edges@, self.vertices@[0], v)
    }

    /// A connected graph whose edge count is one less than its vertex
    /// count: a spanning tree over the current vertex set. False on an
    /// empty graph by convention.
    pub open spec fn spec_spanning(self) -> bool {
        self.connected_over() && self.edges@.len() == self.vertices@.len() - 1
    }

    /// A fresh graph: no vertices, no edges, not spanning.
    pub fn new() -> (g: Graph)
        ensures
            g.wf(),
            g.vertices@.len() == 0,
            g.edges@.len() == 0,
            !g.spanning,
    {
        Graph { vertices: Vec::new(), edges: Vec::new(), spanning: false }
    }

    pub fn vertex_count(&self) -> (n: usize)
        ensures
            n == self.vertices@.len(),
    {
        self.vertices.len()
    }

    pub fn edge_count(&self) -> (n: usize)
        ensures
            n == self.edges@.len(),
    {
        self.edges.len()
    }

    /// The cached result of the last spanning check; never set by hand.
    pub fn is_spanning(&self) -> (r: bool)
        ensures
            r == self.spanning,
    {
        self.spanning
    }

    pub fn contains_vertex(&self, id: u128) -> (r: bool)
        ensures
            r == self.has_vertex(id),
    {
        let mut i: usize = 0;
        while i < self.vertices.len()
            invariant
                i <= self.vertices@.len(),
                forall|k: int| 0 <= k < i ==> self.vertices@[k] != (Vertex { id }),
            decreases self.vertices@.len() - i,
        {
            if self.vertices[i].id == id {
                assert(self.vertices@[i as int] == (Vertex { id }));
                return true;
            }
            i += 1;
        }
        false
    }

    /// Add a vertex for `id`; a no-op when it is already present.
    pub fn add_vertex(&mut self, id: u128) -> (added: bool)
        requires
            old(self).wf(),
        ensures
            final(self).wf(),
            final(self).edges@ == old(self).edges@,
            final(self).spanning == old(self).spanning,
            added == !old(self).has_vertex(id),
            !added ==> final(self).vertices@ == old(self).vertices@,
            added ==> final(self).vertices@ == old(self).vertices@.push(Vertex { id }),
            forall|w: Vertex|
                final(self).vertices@.contains(w) <==> (old(self).vertices@.contains(w) || w
                    == (Vertex { id })),
    {
        if self.contains_vertex(id) {
            false
        } else {
            self.vertices.push(Vertex { id });
            proof {
                lemma_push_contains(old(self).vertices@, Vertex { id });
                assert(self.vertices@.drop_last() == old(self).vertices@);
            }
            true
        }
    }

    /// Remove the vertex for `id` together with every edge incident to it;
    /// a no-op when it is absent.
    pub fn remove_vertex(&mut self, id: u128) -> (removed: bool)
        requires
            old(self).wf(),
        ensures
            final(self).wf(),
            final(self).spanning == old(self).spanning,
            removed == old(self).has_vertex(id),
            !removed ==> final(self).vertices@ == old(self).vertices@ && final(self).edges@ == old(
                self,
            ).edges@,
            forall|w: Vertex|
                final(self).vertices@.contains(w) <==> (old(self).vertices@.contains(w) && w.id
                    != id),
            forall|x: Vertex, y: Vertex|
                has_edge(final(self).edges@, x, y) <==> (has_edge(old(self).edges@, x, y) && x.id
                    != id && y.id != id),
    {
        let found = find_vertex(&self.vertices, id);
        match found {
            None => {
                proof {
                    assert forall|w: Vertex|
                        old(self).vertices@.contains(w) implies w.id != id by {
                        if w.id == id {
                            assert(w == (Vertex { id }));
                        }
                    }
                    assert forall|x: Vertex, y: Vertex| #[trigger]
                        has_edge(old(self).edges@, x, y) implies x.id != id && y.id != id by {
                        if old(self).edges@.contains(Edge { a: x, b: y }) {
                            let k = choose|k: int|
                                0 <= k < old(self).edges@.len() && old(self).edges@[k] == (Edge {
                                    a: x,
                                    b: y,
                                });
                            assert(old(self).vertices@.contains(x));
                            assert(old(self).vertices@.contains(y));
                        } else {
                            let k = choose|k: int|
                                0 <= k < old(self).edges@.len() && old(self).edges@[k] == (Edge {
                                    a: y,
                                    b: x,
                                });
                            assert(old(self).vertices@.contains(x));
                            assert(old(self).vertices@.contains(y));
                        }
                    }
                }
                false
            },
            Some(i) => {
                let ghost prev = self.vertices@;
                self.vertices.remove(i);
                proof {
                    lemma_vertex_removed_contains(prev, i as int);
                }
                let mut kept: Vec<Edge> = Vec::new();
                let mut j: usize = 0;
                while j < self.edges.len()
                    invariant
                        j <= self.edges@.len(),
                        edges_distinct(self.edges@),
                        forall|e: Edge| #[trigger]
                            kept@.contains(e) ==> self.edges@.take(j as int).contains(e)
                                && e.a.id != id && e.b.id != id,
                        forall|e: Edge|
                            (#[trigger] self.edges@.take(j as int).contains(e) && e.a.id != id
                                && e.b.id != id) ==> kept@.contains(e),
                        edges_distinct(kept@),
                    decreases self.edges@.len() - j,
                {
                    let ghost pre_kept = kept@;
                    let e = self.edges[j];
                    if e.a.id != id && e.b.id != id {
                        proof {
                            assert forall|k: int|
                                0 <= k < pre_kept.len() implies !edge_eq(pre_kept[k], e) by {
                                assert(pre_kept.contains(pre_kept[k]));
                                let m = choose|m: int|
                                    0 <= m < j && #[trigger] self.edges@.take(j as int)[m] == pre_kept[k];
                                assert(self.edges@[m] == pre_kept[k]);
                                assert(!edge_eq(self.edges@[m], self.edges@[j as int]));
                            }
                        }
                        kept.push(e);
                        proof {
                            lemma_push_contains_edge(pre_kept, e);
                            assert(self.edges@.take(j as int + 1)[j as int] == self.edges@[
                                j as int
                            ]);
                            assert(self.edges@.take(j as int + 1).drop_last() == self.edges@.take(
                                j as int,
                            ));
                            assert forall|f: Edge| #[trigger]
                                self.edges@.take(j as int + 1).contains(f) implies (
                            self.edges@.take(j as int).contains(f) || f == e) by {
                                let m = choose|m: int|
                                    0 <= m < j + 1 && #[trigger] self.edges@.take(j as int + 1)[m] == f;
                                if m < j {
                                    assert(self.edges@.take(j as int)[m] == f);
                                }
                            }
                            assert forall|k: int, l: int|
                                0 <= k < l < kept@.len() implies !edge_eq(kept@[k], kept@[l]) by {
                                if l < pre_kept.len() {
                                    assert(!edge_eq(pre_kept[k], pre_kept[l]));
                                } else {
                                    assert(kept@[l] == e);
                                    assert(!edge_eq(pre_kept[k], e));
                                }
                            }
                        }
                    } else {
                        proof {
                            assert forall|f: Edge| #[trigger]
                                self.edges@.take(j as int + 1).contains(f) implies (
                            self.edges@.take(j as int).contains(f) || f == e) by {
                                let m = choose|m: int|
                                    0 <= m < j + 1 && #[trigger] self.edges@.take(j as int + 1)[m] == f;
                                if m < j {
                                    assert(self.edges@.take(j as int)[m] == f);
                                }
                            }
                            assert forall|f: Edge|
                                (#[trigger] self.edges@.take(j as int + 1).contains(f) && f.a.id
                                    != id && f.b.id != id) implies kept@.contains(f) by {
                                if f == e {
                                } else {
                                    assert(self.edges@.take(j as int).contains(f));
                                }
                            }
                        }
                    }
                    proof {
                        assert forall|f: Edge| #[trigger]
                            self.edges@.take(j as int).contains(f) implies self.edges@.take(
                            j as int + 1,
                        ).contains(f) by {
                            let m = choose|m: int|
                                0 <= m < j && #[trigger] self.edges@.take(j as int)[m] == f;
                            assert(self.edges@.take(j as int + 1)[m] == f);
                        }
                    }
                    j += 1;
                }
                proof {
                    assert(self.edges@.take(self.edges@.len() as int) == self.edges@);
                }
                self.edges = kept;
                proof {
                    assert forall|x: Vertex, y: Vertex| #[trigger]
                        has_edge(self.edges@, x, y) implies (has_edge(old(self).edges@, x, y)
                        && x.id != id && y.id != id) by {}
                    assert forall|x: Vertex, y: Vertex|
                        (#[trigger] has_edge(old(self).edges@, x, y) && x.id != id && y.id
                            != id) implies has_edge(self.edges@, x, y) by {}
                    assert forall|k: int|
                        0 <= k < self.edges@.len() implies (#[trigger] self.edges@[k]).a
                        != self.edges@[k].b && self.vertices@.contains(self.edges@[k].a)
                        && self.vertices@.contains(self.edges@[k].b) by {
                        assert(self.edges@.contains(self.edges@[k]));
                        let e = self.edges@[k];
                        let m = choose|m: int|
                            0 <= m < old(self).edges@.len() && old(self).edges@[m] == e;
                    }
                }
                true
            },
        }
    }

    fn edge_index(&self, x: u128, y: u128) -> (r: Option<usize>)
        ensures
            match r {
                Some(i) => i < self.edges@.len() && edge_eq(
                    self.edges@[i as int],
                    Edge { a: Vertex { id: x }, b: Vertex { id: y } },
                ),
                None => !has_edge(self.edges@, Vertex { id: x }, Vertex { id: y }),
            },
    {
        let mut j: usize = 0;
        while j < self.edges.len()
            invariant
                j <= self.edges@.len(),
                forall|k: int|
                    0 <= k < j ==> !edge_eq(
                        self.edges@[k],
                        Edge { a: Vertex { id: x }, b: Vertex { id: y } },
                    ),
            decreases self.edges@.len() - j,
        {
            let e = self.edges[j];
            if (e.a.id == x && e.b.id == y) || (e.a.id == y && e.b.id == x) {
                return Some(j);
            }
            j += 1;
        }
        proof {
            let vx = Vertex { id: x };
            let vy = Vertex { id: y };
            if has_edge(self.edges@, vx, vy) {
                if self.edges@.contains(Edge { a: vx, b: vy }) {
                    let k = choose|k: int|
                        0 <= k < self.edges@.len() && self.edges@[k] == (Edge { a: vx, b: vy });
                    assert(edge_eq(self.edges@[k], Edge { a: vx, b: vy }));
                } else {
                    let k = choose|k: int|
                        0 <= k < self.edges@.len() && self.edges@[k] == (Edge { a: vy, b: vx });
                    assert(edge_eq(self.edges@[k], Edge { a: vx, b: vy }));
                }
            }
        }
        None
    }

    /// Record a symmetric edge between `a` and `b`: added exactly when
    /// both vertices exist, they differ, and the edge is not yet there.
    pub fn connect(&mut self, a: u128, b: u128) -> (added: bool)
        requires
            old(self).wf(),
        ensures
            final(self).wf(),
            final(self).vertices@ == old(self).vertices@,
            final(self).spanning == old(self).spanning,
            added == (a != b && old(self).has_vertex(a) && old(self).has_vertex(b) && !has_edge(
                old(self).edges@,
                Vertex { id: a },
                Vertex { id: b },
            )),
            !added ==> final(self).edges@ == old(self).edges@,
            added ==> final(self).edges@ == old(self).edges@.push(
                Edge { a: Vertex { id: a }, b: Vertex { id: b } },
            ),
    {
        if a == b || !self.contains_vertex(a) || !self.contains_vertex(b) {
            return false;
        }
        match self.edge_index(a, b) {
            Some(_) => {
                proof {
                    let i = choose|i: int|
                        0 <= i < self.edges@.len() && edge_eq(
                            self.edges@[i],
                            Edge { a: Vertex { id: a }, b: Vertex { id: b } },
                        );
                    assert(self.edges@.contains(self.edges@[i]));
                    assert(has_edge(self.edges@, Vertex { id: a }, Vertex { id: b }));
                }
                false
            },
            None => {
                let e = Edge { a: Vertex { id: a }, b: Vertex { id: b } };
                self.edges.push(e);
                proof {
                    lemma_push_contains_edge(old(self).edges@, e);
                    assert forall|k: int, l: int|
                        0 <= k < l < self.edges@.len() implies !edge_eq(
                        self.edges@[k],
                        self.edges@[l],
                    ) by {
                        if l < old(self).edges@.len() {
                            assert(!edge_eq(old(self).edges@[k], old(self).edges@[l]));
                        } else {
                            assert(self.edges@[l] == e);
                            if edge_eq(self.edges@[k], e) {
                                assert(old(self).edges@.contains(Edge { a: e.a, b: e.b })
                                    || old(self).edges@.contains(Edge { a: e.b, b: e.a })) by {
                                    let f = old(self).edges@[k];
                                    assert(old(self).edges@.contains(f));
                                }
                                assert(has_edge(old(self).edges@, e.a, e.b));
                            }
                        }
                    }
                }
                true
            },
        }
    }

    /// Remove the edge between `a` and `b` if it is there; symmetric.
    pub fn disconnect(&mut self, a: u128, b: u128) -> (removed: bool)
        requires
            old(self).wf(),
        ensures
            final(self).wf(),
            final(self).vertices@ == old(self).vertices@,
            final(self).spanning == old(self).spanning,
            removed == has_edge(old(self).edges@, Vertex { id: a }, Vertex { id: b }),
            !removed ==> final(self).edges@ == old(self).edges@,
            forall|x: Vertex, y: Vertex|
                has_edge(final(self).edges@, x, y) <==> (has_edge(old(self).edges@, x, y)
                    && !edge_eq(
                    Edge { a: x, b: y },
                    Edge { a: Vertex { id: a }, b: Vertex { id: b } },
                )),
    {
        let ghost vx = Vertex { id: a };
        let ghost vy = Vertex { id: b };
        match self.edge_index(a, b) {
            None => {
                proof {
                    assert forall|x: Vertex, y: Vertex|
                        has_edge(old(self).edges@, x, y) && edge_eq(
                            Edge { a: x, b: y },
                            Edge { a: vx, b: vy },
                        ) implies false by {
                        assert(has_edge(old(self).edges@, vx, vy));
                    }
                }
                false
            },
            Some(i) => {
                let ghost pre = self.edges@;
                let ghost removed_e = self.edges@[i as int];
                self.edges.remove(i);
                proof {
                    lemma_edge_removed_contains(pre, i as int);
                    assert(has_edge(pre, vx, vy)) by {
                        if removed_e.a == vx {
                            assert(pre.contains(Edge { a: vx, b: vy }));
                        } else {
                            assert(pre.contains(Edge { a: vy, b: vx }));
                        }
                    }
                    assert forall|x: Vertex, y: Vertex| #[trigger]
                        has_edge(self.edges@, x, y) implies (has_edge(pre, x, y) && !edge_eq(
                        Edge { a: x, b: y },
                        Edge { a: vx, b: vy },
                    )) by {
                        if self.edges@.contains(Edge { a: x, b: y }) {
                            assert(pre.contains(Edge { a: x, b: y }) && !edge_eq(
                                Edge { a: x, b: y },
                                removed_e,
                            ));
                        } else {
                            assert(self.edges@.contains(Edge { a: y, b: x }));
                            assert(pre.contains(Edge { a: y, b: x }) && !edge_eq(
                                Edge { a: y, b: x },
                                removed_e,
                            ));
                        }
                    }
                    assert forall|x: Vertex, y: Vertex|
                        (#[trigger] has_edge(pre, x, y) && !edge_eq(
                            Edge { a: x, b: y },
                            Edge { a: vx, b: vy },
                        )) implies has_edge(self.edges@, x, y) by {
                        if pre.contains(Edge { a: x, b: y }) {
                            assert(!edge_eq(Edge { a: x, b: y }, removed_e));
                            assert(self.edges@.contains(Edge { a: x, b: y }));
                        } else {
                            assert(pre.contains(Edge { a: y, b: x }));
                            assert(!edge_eq(Edge { a: y, b: x }, removed_e));
                            assert(self.edges@.contains(Edge { a: y, b: x }));
                        }
                    }
                    assert forall|k: int|
                        0 <= k < self.edges@.len() implies (#[trigger] self.edges@[k]).a
                        != self.edges@[k].b && self.vertices@.contains(self.edges@[k].a)
                        && self.vertices@.contains(self.edges@[k].b) by {
                        assert(self.edges@.contains(self.edges@[k]));
                        let m = choose|m: int| 0 <= m < pre.len() && pre[m] == self.edges@[k];
                    }
                }
                true
            },
        }
    }
}

/// Find the index of the vertex carrying `id`, if any.
fn find_vertex(v: &Vec<Vertex>, id: u128) -> (r: Option<usize>)
    ensures
        match r {
            Some(i) => i < v@.len() && v@[i as int] == (Vertex { id }) && v@.contains(
                Vertex { id },
            ),
            None => !v@.contains(Vertex { id }),
        },
{
    let mut i: usize = 0;
    while i < v.len()
        invariant
            i <= v@.len(),
            forall|k: int| 0 <= k < i ==> v@[k] != (Vertex { id }),
        decreases v@.len() - i,
    {
        if v[i].id == id {
            assert(v@[i as int] == (Vertex { id }));
            return Some(i);
        }
        i += 1;
    }
    proof {
        if v@.contains(Vertex { id }) {
            let k = choose|k: int| 0 <= k < v@.len() && v@[k] == (Vertex { id });
        }
    }
    None
}

/// Pushing an element makes its contents exactly the old ones plus it.
pub(crate) proof fn lemma_push_contains(s: Seq<Vertex>, v: Vertex)
    ensures
        forall|w: Vertex| #[trigger] s.push(v).contains(w) <==> (s.contains(w) || w == v),
        s.no_duplicates() && !s.contains(v) ==> s.push(v).no_duplicates(),
{
    let t = s.push(v);
    assert forall|w: Vertex| #[trigger] t.contains(w) implies (s.contains(w) || w == v) by {
        let k = choose|k: int| 0 <= k < t.len() && t[k] == w;
        if k < s.len() {
            assert(s[k] == w);
        }
    }
    assert forall|w: Vertex| (s.contains(w) || w == v) implies #[trigger] t.contains(w) by {
        if s.contains(w) {
            let k = choose|k: int| 0 <= k < s.len() && s[k] == w;
            assert(t[k] == w);
        } else {
            assert(t[s.len() as int] == w);
        }
    }
    if s.no_duplicates() && !s.contains(v) {
        assert forall|k: int, l: int| 0 <= k < l < t.len() implies t[k] != t[l] by {
            if l < s.len() {
            } else {
                assert(t[l] == v);
                assert(s.contains(s[k]));
            }
        }
    }
}

/// The same, for edges.
pub(crate) proof fn lemma_push_contains_edge(s: Seq<Edge>, e: Edge)
    ensures
        forall|f: Edge| #[trigger] s.push(e).contains(f) <==> (s.contains(f) || f == e),
{
    let t = s.push(e);
    assert forall|f: Edge| #[trigger] t.contains(f) implies (s.contains(f) || f == e) by {
        let k = choose|k: int| 0 <= k < t.len() && t[k] == f;
        if k < s.len() {
            assert(s[k] == f);
        }
    }
    assert forall|f: Edge| (s.contains(f) || f == e) implies #[trigger] t.contains(f) by {
        if s.contains(f) {
            let k = choose|k: int| 0 <= k < s.len() && s[k] == f;
            assert(t[k] == f);
        } else {
            assert(t[s.len() as int] == f);
        }
    }
}

/// After removing index `i` from a duplicate-free vertex sequence,
/// exactly the other vertices remain.
proof fn lemma_vertex_removed_contains(s: Seq<Vertex>, i: int)
    requires
        0 <= i < s.len(),
        s.no_duplicates(),
    ensures
        forall|w: Vertex| #[trigger] s.remove(i).contains(w) <==> (s.contains(w) && w != s[i]),
        s.remove(i).no_duplicates(),
{
    let t = s.remove(i);
    assert forall|k: int, l: int| 0 <= k < l < t.len() implies t[k] != t[l] by {
        let k0: int = if k < i { k } else { k + 1 };
        let l0: int = if l < i { l } else { l + 1 };
        assert(t[k] == s[k0]);
        assert(t[l] == s[l0]);
    }
    assert forall|w: Vertex| #[trigger] t.contains(w) implies (s.contains(w) && w != s[i]) by {
        let k = choose|k: int| 0 <= k < t.len() && t[k] == w;
        let k0: int = if k < i { k } else { k + 1 };
        assert(t[k] == s[k0]);
    }
    assert forall|w: Vertex| (s.contains(w) && w != s[i]) implies #[trigger] t.contains(w) by {
        let k = choose|k: int| 0 <= k < s.len() && s[k] == w;
        if k < i {
            assert(t[k] == w);
        } else {
            assert(t[k - 1] == w);
        }
    }
}

/// After removing index `i` from a pairwise-distinct edge table, exactly
/// the other edges remain.
proof fn lemma_edge_removed_contains(s: Seq<Edge>, i: int)
    requires
        0 <= i < s.len(),
        edges_distinct(s),
    ensures
        forall|f: Edge| #[trigger]
            s.remove(i).contains(f) <==> (s.contains(f) && !edge_eq(f, s[i])),
        edges_distinct(s.remove(i)),
{
    let t = s.remove(i);
    assert forall|k: int, l: int| 0 <= k < l < t.len() implies !edge_eq(t[k], t[l]) by {
        let k0: int = if k < i { k } else { k + 1 };
        let l0: int = if l < i { l } else { l + 1 };
        assert(t[k] == s[k0]);
        assert(t[l] == s[l0]);
    }
    assert forall|f: Edge| #[trigger] t.contains(f) implies (s.contains(f) && !edge_eq(
        f,
        s[i],
    )) by {
        let k = choose|k: int| 0 <= k < t.len() && t[k] == f;
        let k0: int = if k < i { k } else { k + 1 };
        assert(t[k] == s[k0]);
        assert(s.contains(s[k0]));
        if k0 != i {
            assert(!edge_eq(s[k0], s[i])) by {
                if k0 < i {
                    assert(!edge_eq(s[k0], s[i]));
                } else {
                    assert(!edge_eq(s[i], s[k0]));
                }
            }
        }
    }
    assert forall|f: Edge| (s.contains(f) && !edge_eq(f, s[i])) implies #[trigger] t.contains(
        f,
    ) by {
        let k = choose|k: int| 0 <= k < s.len() && s[k] == f;
        if k < i {
            assert(t[k] == f);
        } else {
            assert(t[k - 1] == f);
        }
    }
}

/// A vertex reaches itself: the one-vertex walk.
proof fn lemma_reach_refl(es: Seq<Edge>, v: Vertex)
    ensures
        reachable(es, v, v),
{
    let p = seq![v];
    assert(is_path(es, p));
    assert(p.first() == v && p.last() == v);
}

/// Reachability extends across one more edge.
proof fn lemma_reach_step(es: Seq<Edge>, s: Vertex, v: Vertex, w: Vertex)
    requires
        reachable(es, s, v),
        has_edge(es, v, w),
    ensures
        reachable(es, s, w),
{
    let p = choose|p: Seq<Vertex>| is_path(es, p) && p.first() == s && p.last() == v;
    let q = p.push(w);
    assert(is_path(es, q)) by {
        assert forall|k: int| 0 <= k < q.len() - 1 implies has_edge(es, #[trigger] q[k], q[k + 1]) by {
            if k < p.len() - 1 {
                assert(q[k] == p[k]);
                assert(q[k + 1] == p[k + 1]);
                assert(has_edge(es, p[k], p[k + 1]));
            } else {
                assert(k == p.len() - 1);
                assert(q[k] == p.last());
                assert(q[k + 1] == w);
            }
        }
    }
    assert(q.first() == s && q.last() == w);
}

/// A set of vertices that contains `s` and is closed under edges contains
/// the end of every walk that starts at `s`.
proof fn lemma_closed_reach(es: Seq<Edge>, visited: Seq<Vertex>, s: Vertex, p: Seq<Vertex>)
    requires
        visited.contains(s),
        forall|k: int, w: Vertex|
            0 <= k < visited.len() && #[trigger] has_edge(es, visited[k], w) ==> visited.contains(
                w,
            ),
        is_path(es, p),
        p.first() == s,
    ensures
        visited.contains(p.last()),
    decreases p.len(),
{
    if p.len() == 1 {
        assert(p.last() == s);
    } else {
        let q = p.drop_last();
        assert(is_path(es, q)) by {
            assert forall|k: int| 0 <= k < q.len() - 1 implies has_edge(es, #[trigger] q[k], q[k + 1]) by {
                assert(q[k] == p[k]);
                assert(q[k + 1] == p[k + 1]);
                assert(has_edge(es, p[k], p[k + 1]));
            }
        }
        assert(q.first() == s);
        lemma_closed_reach(es, visited, s, q);
        let k = choose|k: int| 0 <= k < visited.len() && visited[k] == q.last();
        assert(has_edge(es, p[p.len() - 2], p[p.len() - 1]));
        assert(q.last() == p[p.len() - 2]);
        assert(has_edge(es, visited[k], p.last()));
    }
}

/// A duplicate-free sequence whose entries all occur in `b` is no longer
/// than `b`.
proof fn lemma_unique_sub_len(a: Seq<Vertex>, b: Seq<Vertex>)
    requires
        a.no_duplicates(),
        forall|k: int| 0 <= k < a.len() ==> b.contains(#[trigger] a[k]),
    ensures
        a.len() <= b.len(),
{
    broadcast use seq_to_set_is_finite;

    a.unique_seq_to_set();
    b.lemma_cardinality_of_set();
    assert(a.to_set().subset_of(b.to_set())) by {
        assert forall|x: Vertex| a.to_set().contains(x) implies b.to_set().contains(x) by {
            assert(a.contains(x));
            let k = choose|k: int| 0 <= k < a.len() && a[k] == x;
            assert(b.contains(a[k]));
        }
    }
    lemma_len_subset(a.to_set(), b.to_set());
}

/// Two duplicate-free sequences of the same length, one contained in the
/// other, hold exactly the same vertices.
proof fn lemma_unique_sub_same_len(a: Seq<Vertex>, b: Seq<Vertex>)
    requires
        a.no_duplicates(),
        b.no_duplicates(),
        a.len() == b.len(),
        forall|k: int| 0 <= k < a.len() ==> b.contains(#[trigger] a[k]),
    ensures
        forall|v: Vertex| b.contains(v) ==> a.contains(v),
{
    broadcast use seq_to_set_is_finite;

    a.unique_seq_to_set();
    b.unique_seq_to_set();
    assert(a.to_set().subset_of(b.to_set())) by {
        assert forall|x: Vertex| a.to_set().contains(x) implies b.to_set().contains(x) by {
            assert(a.contains(x));
            let k = choose|k: int| 0 <= k < a.len() && a[k] == x;
            assert(b.contains(a[k]));
        }
    }
    lemma_subset_equality(a.to_set(), b.to_set());
    assert forall|v: Vertex| b.contains(v) implies a.contains(v) by {
        assert(b.to_set().contains(v));
        assert(a.to_set().contains(v));
    }
}

/// Linear scan for a vertex value.
fn vec_contains_vertex(v: &Vec<Vertex>, x: Vertex) -> (r: bool)
    ensures
        r == v@.contains(x),
{
    let mut i: usize = 0;
    while i < v.len()
        invariant
            i <= v@.len(),
            forall|k: int| 0 <= k < i ==> v@[k] != x,
        decreases v@.len() - i,
    {
        if v[i].id == x.id {
            assert(v@[i as int] == x);
            return true;
        }
        i += 1;
    }
    false
}

impl Graph {
    /// Breadth-first traversal from the first vertex. Returns exactly the
    /// vertices of the graph that can be walked to from it.
    fn reach_from_first(&self) -> (r: Vec<Vertex>)
        requires
            self.wf(),
            self.vertices@.len() > 0,
        ensures
            r@.no_duplicates(),
            r@.len() <= self.vertices@.len(),
            forall|v: Vertex|
                r@.contains(v) <==> (self.vertices@.contains(v) && reachable(
                    self.edges@,
                    self.vertices@[0],
                    v,
                )),
    {
        let start = self.vertices[0];
        let ghost gstart = self.vertices@[0];
        let mut visited: Vec<Vertex> = Vec::new();
        visited.push(start);
        let mut cursor: usize = 0;
        proof {
            lemma_reach_refl(self.edges@, start);
            assert(self.vertices@.contains(start));
        }
        while cursor < visited.len()
            invariant
                self.wf(),
                self.vertices@.len() > 0,
                gstart == self.vertices@[0],
                visited@.len() >= 1,
                visited@[0] == gstart,
                cursor <= visited@.len(),
                visited@.no_duplicates(),
                forall|k: int|
                    0 <= k < visited@.len() ==> self.vertices@.contains(#[trigger] visited@[k])
                        && reachable(self.edges@, gstart, visited@[k]),
                visited@.len() <= self.vertices@.len(),
                forall|k: int, w: Vertex|
                    0 <= k < cursor && #[trigger] has_edge(self.edges@, visited@[k], w)
                        ==> visited@.contains(w),
            decreases self.vertices@.len() - cursor,
        {
            let v = visited[cursor];
            let mut j: usize = 0;
            while j < self.edges.len()
                invariant
                    self.wf(),
                    self.vertices@.len() > 0,
                    gstart == self.vertices@[0],
                    visited@.len() >= 1,
                    visited@[0] == gstart,
                    cursor < visited@.len(),
                    v == visited@[cursor as int],
                    j <= self.edges@.len(),
                    visited@.no_duplicates(),
                    forall|k: int|
                        0 <= k < visited@.len() ==> self.vertices@.contains(#[trigger] visited@[k])
                            && reachable(self.edges@, gstart, visited@[k]),
                    visited@.len() <= self.vertices@.len(),
                    forall|k: int, w: Vertex|
                        0 <= k < cursor && #[trigger] has_edge(self.edges@, visited@[k], w)
                            ==> visited@.contains(w),
                    forall|w: Vertex| #[trigger]
                        has_edge(self.edges@.take(j as int), v, w) ==> visited@.contains(w),
                decreases self.edges@.len() - j,
            {
                let ghost pre = visited@;
                let e = self.edges[j];
                let mut pushed: Option<Vertex> = None;
                if e.a.id == v.id {
                    assert(e.a == v);
                    if !vec_contains_vertex(&visited, e.b) {
                        proof {
                            assert(self.edges@.contains(e));
                            assert(has_edge(self.edges@, v, e.b));
                            lemma_reach_step(self.edges@, gstart, v, e.b);
                            lemma_push_contains(pre, e.b);
                        }
                        visited.push(e.b);
                        pushed = Some(e.b);
                    }
                } else if e.b.id == v.id {
                    assert(e.b == v);
                    if !vec_contains_vertex(&visited, e.a) {
                        proof {
                            assert(self.edges@.contains(e));
                            assert(has_edge(self.edges@, v, e.a));
                            lemma_reach_step(self.edges@, gstart, v, e.a);
                            lemma_push_contains(pre, e.a);
                        }
                        visited.push(e.a);
                        pushed = Some(e.a);
                    }
                }
                proof {
                    lemma_unique_sub_len(visited@, self.vertices@);
                    assert forall|w: Vertex| #[trigger]
                        has_edge(self.edges@.take(j as int + 1), v, w) implies visited@.contains(
                        w,
                    ) by {
                        let tj = self.edges@.take(j as int);
                        let tj1 = self.edges@.take(j as int + 1);
                        assert(tj1.drop_last() == tj);
                        assert(tj1[j as int] == e);
                        if tj1.contains(Edge { a: v, b: w }) {
                            let m = choose|m: int| 0 <= m < tj1.len() && tj1[m] == (Edge { a: v, b: w });
                            if m < j {
                                assert(tj[m] == (Edge { a: v, b: w }));
                                assert(has_edge(tj, v, w));
                                assert(pre.contains(w));
                            } else {
                                assert(e == (Edge { a: v, b: w }));
                            }
                        } else {
                            let m = choose|m: int| 0 <= m < tj1.len() && tj1[m] == (Edge { a: w, b: v });
                            if m < j {
                                assert(tj[m] == (Edge { a: w, b: v }));
                                assert(has_edge(tj, v, w));
                                assert(pre.contains(w));
                            } else {
                                assert(e == (Edge { a: w, b: v }));
                            }
                        }
                    }
                    assert forall|k: int, w: Vertex|
                        0 <= k < cursor && #[trigger] has_edge(self.edges@, visited@[k], w)
                            implies visited@.contains(w) by {
                        assert(visited@[k] == pre[k]);
                        assert(pre.contains(w));
                    }
                }
                j += 1;
            }
            proof {
                assert(self.edges@.take(self.edges@.len() as int) == self.edges@);
                assert forall|k: int, w: Vertex|
                    0 <= k < cursor + 1 && #[trigger] has_edge(self.edges@, visited@[k], w)
                        implies visited@.contains(w) by {
                    if k == cursor {
                        assert(visited@[k] == v);
                        assert(has_edge(self.edges@.take(self.edges@.len() as int), v, w));
                    }
                }
            }
            cursor += 1;
        }
        proof {
            assert forall|v: Vertex| #[trigger]
                visited@.contains(v) implies (self.vertices@.contains(v) && reachable(
                self.edges@,
                gstart,
                v,
            )) by {
                let k = choose|k: int| 0 <= k < visited@.len() && visited@[k] == v;
            }
            assert forall|v: Vertex|
                self.vertices@.contains(v) && reachable(self.edges@, gstart, v)
                    implies #[trigger] visited@.contains(v) by {
                let p = choose|p: Seq<Vertex>|
                    is_path(self.edges@, p) && p.first() == gstart && p.last() == v;
                assert(visited@.contains(visited@[0]));
                lemma_closed_reach(self.edges@, visited@, gstart, p);
            }
        }
        visited
    }

    /// Does the graph form a single connected component over every vertex?
    /// False on an empty graph by convention.
    pub fn is_connected(&self) -> (r: bool)
        requires
            self.wf(),
        ensures
            r == self.connected_over(),
    {
        if self.vertices.len() == 0 {
            return false;
        }
        let reached = self.reach_from_first();
        let all = reached.len() == self.vertices.len();
        proof {
            if all {
                assert forall|k: int|
                    0 <= k < reached@.len() implies self.vertices@.contains(
                    #[trigger] reached@[k],
                ) by {
                    assert(reached@.contains(reached@[k]));
                }
                lemma_unique_sub_same_len(reached@, self.vertices@);
                assert forall|v: Vertex|
                    self.vertices@.contains(v) implies reachable(
                    self.edges@,
                    self.vertices@[0],
                    v,
                ) by {
                    assert(reached@.contains(v));
                }
            } else {
                if self.connected_over() {
                    assert forall|k: int|
                        0 <= k < self.vertices@.len() implies reached@.contains(
                        #[trigger] self.vertices@[k],
                    ) by {
                        assert(self.vertices@.contains(self.vertices@[k]));
                    }
                    lemma_unique_sub_len(self.vertices@, reached@);
                    assert(false);
                }
            }
        }
        all
    }

    /// The periodic spanning-tree check: traverse from the first vertex
    /// and compare counts. True exactly when the edges form a connected,
    /// acyclic subgraph over the whole current vertex set; the result is
    /// cached in `spanning`. An empty graph is not spanning by convention.
    pub fn recompute_spanning(&mut self) -> (r: bool)
        requires
            old(self).wf(),
        ensures
            final(self).wf(),
            final(self).vertices@ == old(self).vertices@,
            final(self).edges@ == old(self).edges@,
            final(self).spanning == r,
            r == old(self).spec_spanning(),
    {
        if self.vertices.len() == 0 {
            self.spanning = false;
            return false;
        }
        let connected = self.is_connected();
        let ok = connected && self.edges.len() == self.vertices.len() - 1;
        self.spanning = ok;
        ok
    }
}

} // verus!
