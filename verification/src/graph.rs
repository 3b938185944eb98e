pub mod minimum_spanning;
pub mod parse;
pub mod traversal;

use vstd::prelude::*;

verus! {

/// A directed edge record: the index of the destination vertex and the
/// weight carried by the edge (0 in unweighted graphs).
#[derive(Clone, Debug)]
pub struct Edge {
    pub target_idx: usize,
    pub weight: i32,
}

/// A vertex of the store: its dense index, its label, and its ordered
/// list of outgoing edges.
#[derive(Clone, Debug)]
pub struct Vertex {
    pub idx: usize,
    pub label: String,
    pub edges: Vec<Edge>,
}

/// The flags a graph was declared and loaded with.
#[derive(Clone, Copy, PartialEq, Eq, Structural, Debug)]
pub struct GraphFlags {
    pub directed: bool,
    pub weighted: bool,
    pub nonnegative: bool,
}

/// The in-memory graph: a dense, index-addressed sequence of vertices,
/// the declared flags, and a label lookup table (`label_table[i]` holds
/// the characters of vertex `i`'s label).
#[derive(Debug)]
pub struct AdjacencyList {
    pub vertices: Vec<Vertex>,
    pub directed: bool,
    pub weighted: bool,
    pub nonnegative: bool,
    pub label_table: Vec<Vec<char>>,
}

impl AdjacencyList {
    /// Number of vertices, as a mathematical integer.
    pub open spec fn n(self) -> int {
        self.vertices@.len() as int
    }

    /// The edge list of vertex `u`.
    pub open spec fn edges(self, u: int) -> Seq<Edge> {
        self.vertices@[u].edges@
    }

    /// The label of vertex `i`, as a sequence of characters.
    pub open spec fn label_of(self, i: int) -> Seq<char> {
        self.vertices@[i].label@
    }

    /// Some edge from `u` targets `v`.
    pub open spec fn edge_to(self, u: int, v: int) -> bool {
        exists|k: int|
            0 <= k < self.edges(u).len() && (#[trigger] self.edges(u)[k]).target_idx == v
    }

    /// Some edge from `u` targets `v` with weight `w`.
    pub open spec fn has_edge(self, u: int, v: int, w: int) -> bool {
        exists|k: int|
            0 <= k < self.edges(u).len() && (#[trigger] self.edges(u)[k]).target_idx == v
                && self.edges(u)[k].weight == w
    }

    /// Every edge target is a valid dense index.
    pub open spec fn targets_in_range(self) -> bool {
        forall|u: int, k: int|
            0 <= u < self.n() && 0 <= k < self.edges(u).len() ==> (
            #[trigger] self.edges(u)[k]).target_idx < self.n()
    }

    /// Vertices carry their own position as `idx`, and the lookup table
    /// mirrors the labels of the vertex sequence.
    pub open spec fn indices_dense(self) -> bool {
        &&& self.label_table@.len() == self.vertices@.len()
        &&& forall|i: int| 0 <= i < self.n() ==> (#[trigger] self.vertices@[i]).idx == i
        &&& forall|i: int| 0 <= i < self.n() ==> (#[trigger] self.label_table@[i])@
            == self.label_of(i)
    }

    /// Labels are non-empty and pairwise distinct, so `label -> idx` is a
    /// bijection with the vertex sequence.
    pub open spec fn labels_unique(self) -> bool {
        &&& forall|i: int| 0 <= i < self.n() ==> (#[trigger] self.label_of(i)).len() > 0
        &&& forall|i: int, j: int|
            0 <= i < self.n() && 0 <= j < self.n() && i != j ==> #[trigger] self.label_of(i)
                != #[trigger] self.label_of(j)
    }

    /// If the `nonnegative` flag is set, every stored weight is >= 0.
    pub open spec fn nonnegative_sound(self) -> bool {
        self.nonnegative ==> forall|u: int, k: int|
            0 <= u < self.n() && 0 <= k < self.edges(u).len() ==> (
            #[trigger] self.edges(u)[k]).weight >= 0
    }

    /// In an undirected graph every edge has a mate in the opposite
    /// direction carrying the same weight.
    pub open spec fn symmetric(self) -> bool {
        !self.directed ==> forall|u: int, k: int|
            0 <= u < self.n() && 0 <= k < self.edges(u).len() ==> self.has_edge(
                (#[trigger] self.edges(u)[k]).target_idx as int,
                u,
                self.edges(u)[k].weight as int,
            )
    }

    /// For distinct `u` and `v` at most one edge of `u` targets `v`,
    /// whatever the declared direction (self-loops are exempt: a single
    /// undirected self-loop declaration stores two records).
    pub open spec fn deduplicated(self) -> bool {
        forall|u: int, k1: int, k2: int|
            0 <= u < self.n() && 0 <= k1 < self.edges(u).len() && 0 <= k2 < self.edges(
                u,
            ).len() && k1 != k2 && (#[trigger] self.edges(u)[k1]).target_idx != u ==> self.edges(
                u,
            )[k1].target_idx != (#[trigger] self.edges(u)[k2]).target_idx
    }

    /// Well-formedness of a loaded store: the invariants every loaded
    /// graph satisfies and every algorithm of this library relies on.
    pub open spec fn wf(self) -> bool {
        &&& self.targets_in_range()
        &&& self.indices_dense()
        &&& self.labels_unique()
        &&& self.nonnegative_sound()
        &&& self.symmetric()
        &&& self.deduplicated()
    }

    pub fn len(&self) -> (r: usize)
        ensures
            r == self.n(),
    {
        self.vertices.len()
    }

    pub fn flags(&self) -> (r: GraphFlags)
        ensures
            r.directed == self.directed,
            r.weighted == self.weighted,
            r.nonnegative == self.nonnegative,
    {
        GraphFlags { directed: self.directed, weighted: self.weighted, nonnegative: self.nonnegative }
    }

    pub fn vertex_at(&self, idx: usize) -> (r: &Vertex)
        requires
            idx < self.n(),
        ensures
            *r == self.vertices@[idx as int],
    {
        &self.vertices[idx]
    }

    pub fn edges_of(&self, idx: usize) -> (r: &Vec<Edge>)
        requires
            idx < self.n(),
        ensures
            r@ == self.edges(idx as int),
    {
        &self.vertices[idx].edges
    }
}

impl Vertex {
    pub fn new(idx: usize, label: String) -> (v: Vertex)
        ensures
            v.idx == idx,
            v.label == label,
            v.edges@ == Seq::<Edge>::empty(),
    {
        Vertex { idx, label, edges: Vec::new() }
    }

    pub fn degree(&self) -> (r: usize)
        ensures
            r == self.edges@.len(),
    {
        self.edges.len()
    }

    pub fn idx(&self) -> (r: usize)
        ensures
            r == self.idx,
    {
        self.idx
    }

    pub fn label(&self) -> (r: &str)
        ensures
            r@ == self.label@,
    {
        self.label.as_str()
    }
}

impl PartialEq for Vertex {
    /// Two vertices are the same vertex exactly when they carry the same
    /// dense index.
    fn eq(&self, other: &Self) -> (r: bool) {
        self.idx == other.idx
    }
}

impl vstd::std_specs::cmp::PartialEqSpecImpl for Vertex {
    open spec fn obeys_eq_spec() -> bool {
        true
    }

    open spec fn eq_spec(&self, other: &Vertex) -> bool {
        self.idx == other.idx
    }
}


impl AdjacencyList {
    /// `p` is a walk through the graph along stored edges.
    pub open spec fn is_path(self, p: Seq<int>) -> bool {
        &&& p.len() >= 1
        &&& (forall|i: int| 0 <= i < p.len() ==> 0 <= #[trigger] p[i] < self.n())
        &&& (forall|i: int| 0 <= i < p.len() - 1 ==> self.edge_to(#[trigger] p[i], p[i + 1]))
    }

    /// `v` can be reached from `u` along stored edges.
    pub open spec fn reaches(self, u: int, v: int) -> bool {
        exists|p: Seq<int>| self.is_path(p) && p.first() == u && p.last() == v
    }

    pub proof fn lemma_reaches_refl(self, u: int)
        requires
            0 <= u < self.n(),
        ensures
            self.reaches(u, u),
    {
        let p = seq![u];
        assert(self.is_path(p) && p.first() == u && p.last() == u);
    }

    pub proof fn lemma_reaches_step(self, s: int, u: int, v: int)
        requires
            self.reaches(s, u),
            self.edge_to(u, v),
            0 <= v < self.n(),
        ensures
            self.reaches(s, v),
    {
        let p = choose|p: Seq<int>| self.is_path(p) && p.first() == s && p.last() == u;
        let q = p.push(v);
        assert forall|i: int| 0 <= i < q.len() - 1 implies self.edge_to(#[trigger] q[i], q[i + 1]) by {
            if i < p.len() - 1 {
                assert(q[i] == p[i] && q[i + 1] == p[i + 1]);
            } else {
                assert(q[i] == u && q[i + 1] == v);
            }
        }
        assert(self.is_path(q) && q.first() == s && q.last() == v);
    }

    pub proof fn lemma_reaches_trans(self, a: int, b: int, c: int)
        requires
            self.reaches(a, b),
            self.reaches(b, c),
        ensures
            self.reaches(a, c),
    {
        let p = choose|p: Seq<int>| self.is_path(p) && p.first() == a && p.last() == b;
        let q = choose|q: Seq<int>| self.is_path(q) && q.first() == b && q.last() == c;
        let r = p + q.drop_first();
        assert(r.len() >= 1);
        assert forall|i: int| 0 <= i < r.len() implies 0 <= #[trigger] r[i] < self.n() by {
            if i < p.len() {
            } else {
                assert(r[i] == q.drop_first()[i - p.len()]);
                assert(q.drop_first()[i - p.len()] == q[i - p.len() + 1]);
            }
        }
        assert forall|i: int| 0 <= i < r.len() - 1 implies self.edge_to(#[trigger] r[i], r[i + 1]) by {
            if i + 1 < p.len() {
                assert(r[i] == p[i] && r[i + 1] == p[i + 1]);
            } else if i == p.len() - 1 {
                assert(r[i] == b && q[0] == b);
                if q.len() > 1 {
                    assert(r[i + 1] == q[1]);
                    assert(self.edge_to(q[0], q[1]));
                }
            } else {
                assert(r[i] == q[i - p.len() + 1] && r[i + 1] == q[i - p.len() + 2]);
                assert(self.edge_to(q[i - p.len() + 1], q[i - p.len() + 2]));
            }
        }
        if q.len() == 1 {
            assert(r =~= p);
        }
        assert(self.is_path(r) && r.first() == a && r.last() == c);
    }

    /// A set that contains `p.first()` and is closed under stored edges
    /// contains every vertex of the path.
    proof fn lemma_path_in_closed_set(self, p: Seq<int>, sset: Set<int>)
        requires
            self.is_path(p),
            sset.contains(p.first()),
            forall|v: int, k: int|
                sset.contains(v) && 0 <= v < self.n() && 0 <= k < self.edges(v).len()
                    ==> sset.contains((#[trigger] self.edges(v)[k]).target_idx as int),
        ensures
            sset.contains(p.last()),
        decreases p.len(),
    {
        if p.len() > 1 {
            let q = p.drop_last();
            assert forall|i: int| 0 <= i < q.len() - 1 implies self.edge_to(
                #[trigger] q[i],
                q[i + 1],
            ) by {
                assert(q[i] == p[i] && q[i + 1] == p[i + 1]);
            }
            assert(self.is_path(q));
            self.lemma_path_in_closed_set(q, sset);
            assert(self.edge_to(p[p.len() - 2], p[p.len() - 1]));
            let u = p[p.len() - 2];
            let k = choose|k: int|
                0 <= k < self.edges(u).len() && (#[trigger] self.edges(u)[k]).target_idx == p[p.len()
                    - 1];
            assert(sset.contains(self.edges(u)[k].target_idx as int));
            assert(sset.contains(p.last()));
        }
    }

    /// There is a walk of at most `d` edges from `s` to `v`.
    pub open spec fn dist_at_most(self, s: int, v: int, d: int) -> bool {
        exists|p: Seq<int>|
            self.is_path(p) && p.first() == s && p.last() == v && p.len() <= d + 1
    }

    pub proof fn lemma_dist_at_most_refl(self, u: int)
        requires
            0 <= u < self.n(),
        ensures
            self.dist_at_most(u, u, 0),
    {
        let p = seq![u];
        assert(self.is_path(p) && p.first() == u && p.last() == u && p.len() <= 1);
    }

    pub proof fn lemma_dist_at_most_step(self, s: int, u: int, v: int, d: int)
        requires
            self.dist_at_most(s, u, d),
            self.edge_to(u, v),
            0 <= v < self.n(),
        ensures
            self.dist_at_most(s, v, d + 1),
    {
        let p = choose|p: Seq<int>|
            self.is_path(p) && p.first() == s && p.last() == u && p.len() <= d + 1;
        let q = p.push(v);
        assert forall|i: int| 0 <= i < q.len() - 1 implies self.edge_to(#[trigger] q[i], q[i + 1]) by {
            if i < p.len() - 1 {
                assert(q[i] == p[i] && q[i + 1] == p[i + 1]);
            } else {
                assert(q[i] == u && q[i + 1] == v);
            }
        }
        assert(self.is_path(q) && q.first() == s && q.last() == v && q.len() <= d + 2);
    }

    /// Everything reachable from `s` lies in any edge-closed set that
    /// holds `s`.
    pub proof fn lemma_reaches_in_closed_set(self, s: int, v: int, sset: Set<int>)
        requires
            self.reaches(s, v),
            sset.contains(s),
            forall|u: int, k: int|
                sset.contains(u) && 0 <= u < self.n() && 0 <= k < self.edges(u).len()
                    ==> sset.contains((#[trigger] self.edges(u)[k]).target_idx as int),
        ensures
            sset.contains(v),
    {
        let p = choose|p: Seq<int>| self.is_path(p) && p.first() == s && p.last() == v;
        self.lemma_path_in_closed_set(p, sset);
    }

    /// Whether some vertex carries the label `l`.
    pub open spec fn has_label(self, l: Seq<char>) -> bool {
        exists|i: int| 0 <= i < self.n() && #[trigger] self.label_of(i) == l
    }

    /// Look a label up in the lookup table; empty result when unknown.
    pub fn vertex_by_label(&self, label: &str) -> (r: Option<usize>)
        requires
            self.wf(),
        ensures
            match r {
                Option::Some(i) => i < self.n() && self.label_of(i as int) == label@,
                Option::None => !self.has_label(label@),
            },
    {
        let chars = crate::graph::parse::collect_chars(label);
        proof {
            assert(chars@.subrange(0, chars@.len() as int) =~= label@);
        }
        let r = crate::graph::parse::lookup_label(&self.label_table, &chars, 0, chars.len());
        match r {
            Option::Some(i) => {
                proof {
                    assert(crate::graph::parse::labels_view(self.label_table@)[i as int]
                        == self.label_table@[i as int]@);
                }
                Option::Some(i)
            },
            Option::None => {
                proof {
                    if self.has_label(label@) {
                        let i = choose|i: int|
                            0 <= i < self.n() && #[trigger] self.label_of(i) == label@;
                        assert(crate::graph::parse::labels_view(self.label_table@)[i]
                            == self.label_table@[i]@);
                        assert(crate::graph::parse::labels_view(self.label_table@).contains(
                            label@,
                        ));
                    }
                }
                Option::None
            },
        }
    }
}

} // verus!
