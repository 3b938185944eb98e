use vstd::prelude::*;

use crate::graph::AdjacencyList;
use crate::graph::traversal::make_parents;
use crate::graph::traversal::q_contains;

verus! {

/// The ways building a spanning tree can fail.
#[derive(Clone, Copy, PartialEq, Eq, Structural, Debug)]
pub enum PrimError {
    /// The start label is not in the store.
    UnknownLabel,
    /// The spanning-tree construction runs on undirected graphs only.
    DirectedGraph,
    /// The spanning-tree construction requires non-negative weights.
    NegativeWeights,
}

/// One record of the spanning forest: the vertex's label, its parent in
/// the tree (absent at the root and at unreachable vertices), and the
/// weight of the tree edge that connects it to its parent.
pub struct SpanningTree {
    pub label: String,
    pub parent_idx: Option<usize>,
    pub distance: usize,
}

/// Per-vertex state of the spanning-tree construction: never touched, a
/// candidate with its best known connecting weight, or finalised with
/// its tree distance.
#[derive(Clone, Copy)]
pub enum VertState {
    Undiscovered,
    NotInTree(usize),
    InTree(usize),
}

/// The distance a state carries (0 for an untouched vertex).
pub open spec fn dist_val(st: VertState) -> int {
    match st {
        VertState::Undiscovered => 0,
        VertState::NotInTree(x) => x as int,
        VertState::InTree(x) => x as int,
    }
}

impl VertState {
    /// If the vertex is untouched, make it a candidate at distance `d`;
    /// either way return the recorded distance.
    pub fn get_or_insert(&mut self, d: usize) -> (r: usize)
        ensures
            match *old(self) {
                VertState::Undiscovered => *final(self) == VertState::NotInTree(d) && r == d,
                VertState::NotInTree(x) => *final(self) == *old(self) && r == x,
                VertState::InTree(x) => *final(self) == *old(self) && r == x,
            },
    {
        let cur = *self;
        match cur {
            VertState::Undiscovered => {
                *self = VertState::NotInTree(d);
                d
            },
            VertState::NotInTree(x) => x,
            VertState::InTree(x) => x,
        }
    }

    /// Whether the vertex is finalised.
    pub fn is_in_tree(&self) -> (r: bool)
        ensures
            r == (*self is InTree),
    {
        match *self {
            VertState::InTree(_) => true,
            _ => false,
        }
    }

    /// The recorded distance of a touched vertex.
    pub fn unwrap(&self) -> (r: usize)
        requires
            !(*self is Undiscovered),
        ensures
            r == dist_val(*self),
    {
        match *self {
            VertState::InTree(x) => x,
            VertState::NotInTree(x) => x,
            VertState::Undiscovered => 0,
        }
    }
}

/// Number of vertices not yet finalised; the construction's
/// termination measure.
pub open spec fn count_outside(dist: Seq<VertState>) -> int
    decreases dist.len(),
{
    if dist.len() == 0 {
        0
    } else {
        count_outside(dist.drop_last()) + if dist.last() is InTree {
            0
        } else {
            1int
        }
    }
}

proof fn lemma_count_outside_update(s: Seq<VertState>, i: int, x: VertState)
    requires
        0 <= i < s.len(),
    ensures
        count_outside(s.update(i, x)) == count_outside(s) - (if s[i] is InTree {
            0
        } else {
            1int
        }) + (if x is InTree {
            0
        } else {
            1int
        }),
    decreases s.len(),
{
    let t = s.update(i, x);
    if i == s.len() - 1 {
        assert(t.drop_last() =~= s.drop_last());
        assert(t.last() == x);
    } else {
        assert(t.drop_last() =~= s.drop_last().update(i, x));
        assert(t.last() == s.last());
        lemma_count_outside_update(s.drop_last(), i, x);
    }
}

proof fn lemma_count_outside_nonneg(s: Seq<VertState>)
    ensures
        count_outside(s) >= 0,
    decreases s.len(),
{
    if s.len() > 0 {
        lemma_count_outside_nonneg(s.drop_last());
    }
}

proof fn lemma_count_outside_pos(s: Seq<VertState>, i: int)
    requires
        0 <= i < s.len(),
        !(s[i] is InTree),
    ensures
        count_outside(s) >= 1,
    decreases s.len(),
{
    lemma_count_outside_nonneg(s.drop_last());
    if i < s.len() - 1 {
        lemma_count_outside_pos(s.drop_last(), i);
    }
}

/// Position of the unique edge from `u` to `v` in `u`'s edge list
/// (meaningful when such an edge exists; unique for `u != v` by the
/// store's deduplication invariant).
pub open spec fn edge_index_of(g: AdjacencyList, u: int, v: int) -> int {
    choose|k: int| 0 <= k < g.edges(u).len() && (#[trigger] g.edges(u)[k]).target_idx == v
}

/// The weight of the edge from `u` to `v`, when one is stored.
pub open spec fn link_weight(g: AdjacencyList, u: int, v: int) -> Option<int> {
    if g.edge_to(u, v) {
        Option::Some(g.edges(u)[edge_index_of(g, u, v)].weight as int)
    } else {
        Option::None
    }
}

/// In a well-formed store, any edge from `u` to `v != u` carries the
/// link weight.
proof fn lemma_link_weight(g: AdjacencyList, u: int, v: int, k: int)
    requires
        g.wf(),
        0 <= u < g.n(),
        u != v,
        0 <= k < g.edges(u).len(),
        g.edges(u)[k].target_idx == v,
    ensures
        link_weight(g, u, v) == Option::Some(g.edges(u)[k].weight as int),
{
    assert(g.edge_to(u, v));
    let k2 = edge_index_of(g, u, v);
    assert(0 <= k2 < g.edges(u).len() && g.edges(u)[k2].target_idx == v);
    if k2 != k {
        assert(g.edges(u)[k].target_idx != u);
        assert(g.edges(u)[k].target_idx != g.edges(u)[k2].target_idx);
    }
}

/// The lightest connecting weight from any vertex of `pref` to `v`.
pub open spec fn min_link(g: AdjacencyList, pref: Seq<usize>, v: int) -> Option<int>
    decreases pref.len(),
{
    if pref.len() == 0 {
        Option::None
    } else {
        let rest = min_link(g, pref.drop_last(), v);
        let lw = link_weight(g, pref.last() as int, v);
        match rest {
            Option::None => lw,
            Option::Some(a) => match lw {
                Option::None => Option::Some(a),
                Option::Some(b) => Option::Some(
                    if a <= b {
                        a
                    } else {
                        b
                    },
                ),
            },
        }
    }
}

proof fn lemma_min_link_push(g: AdjacencyList, pref: Seq<usize>, u: usize, v: int)
    ensures
        min_link(g, pref.push(u), v) == ({
            let rest = min_link(g, pref, v);
            let lw = link_weight(g, u as int, v);
            match rest {
                Option::None => lw,
                Option::Some(a) => match lw {
                    Option::None => Option::Some(a),
                    Option::Some(b) => Option::Some(
                        if a <= b {
                            a
                        } else {
                            b
                        },
                    ),
                },
            }
        }),
{
    assert(pref.push(u).drop_last() =~= pref);
    assert(pref.push(u).last() == u);
}

/// One step of the greedy selection: the vertex `c`, finalised after
/// the prefix `pref`, was connected to it, no better-connected vertex
/// was available, and ties went to the lowest index.
pub open spec fn greedy_pick(g: AdjacencyList, pref: Seq<usize>, c: int) -> bool {
    &&& min_link(g, pref, c) is Some
    &&& forall|v: int|
        0 <= v < g.n() && !q_contains(pref, v) && v != c ==> ((#[trigger] min_link(
            g,
            pref,
            v,
        )) matches Option::Some(dv) ==> dv > min_link(g, pref, c)->Some_0 || (dv == min_link(
            g,
            pref,
            c,
        )->Some_0 && c < v))
}

/// The construction is the greedy one: every finalisation takes the
/// candidate with the lightest connecting edge (lowest index on ties),
/// its recorded distance is that weight, and the order stops only when
/// nothing else is connected.
pub open spec fn prim_greedy(
    g: AdjacencyList,
    s: int,
    t: Seq<SpanningTree>,
    ord: Seq<usize>,
) -> bool {
    &&& forall|i: int| 1 <= i < ord.len() ==> #[trigger] greedy_pick(g, ord.take(i), ord[i] as int)
    &&& forall|i: int|
        1 <= i < ord.len() ==> t[#[trigger] ord[i] as int].distance as int == min_link(
            g,
            ord.take(i),
            ord[i] as int,
        )->Some_0
    &&& forall|v: int|
        0 <= v < g.n() && !q_contains(ord, v) ==> (#[trigger] min_link(g, ord, v)) is None
}

/// Whether one of the first `k` edges of `u` targets `v`.
pub open spec fn edge_done(g: AdjacencyList, u: int, k: int, v: int) -> bool {
    exists|kk: int| 0 <= kk < k && (#[trigger] g.edges(u)[kk]).target_idx == v
}

/// The working state of the construction: `ord` lists the finalised
/// vertices in the order they entered the tree (the first `scanned` of
/// them have had their edges relaxed), every touched vertex carries a
/// real connecting edge from a finalised parent, and only vertices of
/// the start's component are ever touched.
pub open spec fn prim_inv(
    g: AdjacencyList,
    s: int,
    dist: Seq<VertState>,
    par: Seq<Option<usize>>,
    ord: Seq<usize>,
    scanned: int,
) -> bool {
    &&& dist.len() == g.n()
    &&& par.len() == g.n()
    &&& 0 <= s < g.n()
    &&& 0 <= scanned <= ord.len()
    &&& ord.len() >= 1
    &&& ord[0] as int == s
    &&& ord.no_duplicates()
    &&& (forall|i: int| 0 <= i < ord.len() ==> (#[trigger] ord[i] as int) < g.n())
    &&& (forall|i: int| 0 <= i < ord.len() ==> dist[#[trigger] ord[i] as int] is InTree)
    &&& (forall|v: int| 0 <= v < g.n() && dist[v] is InTree ==> q_contains(ord, v))
    &&& dist[s] == VertState::InTree(0)
    &&& par[s] is None
    &&& (forall|v: int|
        0 <= v < g.n() && dist[v] is Undiscovered ==> (#[trigger] par[v]) is None)
    &&& (forall|v: int|
        0 <= v < g.n() && v != s && !((#[trigger] dist[v]) is Undiscovered) ==> (
        par[v] matches Option::Some(p) && (p as int) < g.n() && dist[p as int] is InTree
            && g.has_edge(p as int, v, dist_val(dist[v]))))
    &&& (forall|i: int|
        #![trigger ord[i]]
        0 < i < ord.len() ==> exists|j: int|
            #![trigger ord[j]]
            0 <= j < i && par[ord[i] as int] == Option::Some(ord[j]))
    &&& (forall|i: int| 0 < i < ord.len() ==> (#[trigger] ord[i] as int) != s)
    &&& (forall|v: int|
        0 <= v < g.n() && !((#[trigger] dist[v]) is Undiscovered) ==> g.reaches(s, v))
    &&& (forall|i: int, k: int|
        0 <= i < scanned && 0 <= k < g.edges(ord[i] as int).len() ==> !(dist[(#[trigger] g.edges(
            ord[i] as int,
        )[k]).target_idx as int] is Undiscovered))
}

/// At a scan boundary, every untouched vertex has no stored edge from
/// the scanned prefix, and every candidate's recorded distance is the
/// lightest connecting weight from it.
pub open spec fn prim_links(g: AdjacencyList, dist: Seq<VertState>, pref: Seq<usize>) -> bool {
    &&& (forall|v: int|
        0 <= v < g.n() && dist[v] is Undiscovered ==> (#[trigger] min_link(g, pref, v)) is None)
    &&& (forall|v: int|
        0 <= v < g.n() ==> ((#[trigger] dist[v]) matches VertState::NotInTree(d) ==> min_link(
            g,
            pref,
            v,
        ) == Option::Some(d as int)))
}

/// The parent links of a finished construction form a tree rooted at
/// the start: `ord` finalises each parent strictly before its children,
/// and holds exactly the root and the vertices with a parent.
pub open spec fn prim_tree_order(
    g: AdjacencyList,
    s: int,
    t: Seq<SpanningTree>,
    ord: Seq<usize>,
) -> bool {
    &&& ord.no_duplicates()
    &&& ord.len() >= 1
    &&& ord[0] as int == s
    &&& (forall|i: int| 0 <= i < ord.len() ==> (#[trigger] ord[i] as int) < g.n())
    &&& (forall|v: int|
        0 <= v < g.n() ==> (q_contains(ord, v) <==> (v == s || t[v].parent_idx is Some)))
    &&& (forall|i: int|
        #![trigger ord[i]]
        0 < i < ord.len() ==> exists|j: int|
            #![trigger ord[j]]
            0 <= j < i && t[ord[i] as int].parent_idx == Option::Some(ord[j]))
}

fn make_dist(n: usize) -> (r: Vec<VertState>)
    ensures
        r@.len() == n,
        forall|i: int| 0 <= i < n ==> r@[i] is Undiscovered,
{
    let mut r: Vec<VertState> = Vec::new();
    let mut i: usize = 0;
    while i < n
        invariant
            i <= n,
            r@.len() == i,
            forall|j: int| 0 <= j < i ==> r@[j] is Undiscovered,
        decreases n - i,
    {
        r.push(VertState::Undiscovered);
        i = i + 1;
    }
    r
}

/// The candidate with the smallest recorded distance (first one on
/// ties, so the lowest index), or nothing when no candidate remains.
fn select_min(dist: &Vec<VertState>) -> (r: Option<usize>)
    ensures
        match r {
            Option::Some(c) => (c as int) < dist@.len() && dist@[c as int] is NotInTree && (forall|
                j: int,
            |
                0 <= j < dist@.len() && (#[trigger] dist@[j]) is NotInTree ==> dist_val(dist@[j])
                    >= dist_val(dist@[c as int])) && (forall|j: int|
                0 <= j < c ==> ((#[trigger] dist@[j]) is NotInTree ==> dist_val(dist@[j])
                    > dist_val(dist@[c as int]))),
            Option::None => forall|j: int|
                0 <= j < dist@.len() ==> !((#[trigger] dist@[j]) is NotInTree),
        },
{
    let mut best: Option<usize> = Option::None;
    let mut best_w: usize = 0;
    let mut i: usize = 0;
    while i < dist.len()
        invariant
            i <= dist@.len(),
            match best {
                Option::Some(c) => (c as int) < i && dist@[c as int] == VertState::NotInTree(
                    best_w,
                ) && (forall|j: int|
                    0 <= j < i && (#[trigger] dist@[j]) is NotInTree ==> dist_val(dist@[j])
                        >= best_w) && (forall|j: int|
                    0 <= j < c ==> ((#[trigger] dist@[j]) is NotInTree ==> dist_val(dist@[j])
                        > best_w)),
                Option::None => forall|j: int|
                    0 <= j < i ==> !((#[trigger] dist@[j]) is NotInTree),
            },
        decreases dist@.len() - i,
    {
        match dist[i] {
            VertState::NotInTree(w) => {
                match best {
                    Option::Some(_) => {
                        if w < best_w {
                            best = Option::Some(i);
                            best_w = w;
                        }
                    },
                    Option::None => {
                        best = Option::Some(i);
                        best_w = w;
                    },
                }
            },
            _ => {},
        }
        i = i + 1;
    }
    best
}


/// Finalising the selected candidate preserves the construction's
/// invariant, with the new vertex appended to the finalisation order.
#[verifier::rlimit(100)]
#[verifier::spinoff_prover]
proof fn lemma_prim_mark(
    g: AdjacencyList,
    s: int,
    dist_pre: Seq<VertState>,
    dist: Seq<VertState>,
    par: Seq<Option<usize>>,
    ord_pre: Seq<usize>,
    c: usize,
    d: usize,
)
    requires
        g.wf(),
        prim_inv(g, s, dist_pre, par, ord_pre, ord_pre.len() as int),
        (c as int) < g.n(),
        dist_pre[c as int] is NotInTree,
        dist_val(dist_pre[c as int]) == d,
        dist == dist_pre.update(c as int, VertState::InTree(d)),
    ensures
        prim_inv(g, s, dist, par, ord_pre.push(c), ord_pre.len() as int),
{
    let ord = ord_pre.push(c);
    assert(!(dist_pre[c as int] is InTree));
    assert(!q_contains(ord_pre, c as int)) by {
        if q_contains(ord_pre, c as int) {
            let i = choose|i: int|
                0 <= i < ord_pre.len() && #[trigger] ord_pre[i] as int == c as int;
            assert(dist_pre[ord_pre[i] as int] is InTree);
        }
    }
    assert(ord.no_duplicates()) by {
        assert forall|i: int, j: int|
            0 <= i < ord.len() && 0 <= j < ord.len() && i != j implies ord[i] != ord[j] by {
            if i < ord.len() - 1 && j < ord.len() - 1 {
                assert(ord_pre[i] != ord_pre[j]);
            } else if i == ord.len() - 1 {
                assert(ord[j] == ord_pre[j]);
                assert(!(ord_pre[j] as int == c as int));
            } else {
                assert(ord[i] == ord_pre[i]);
                assert(!(ord_pre[i] as int == c as int));
            }
        }
    }
    assert forall|v: int| 0 <= v < g.n() && dist[v] is InTree implies q_contains(ord, v) by {
        if v == c as int {
            assert(ord[ord.len() - 1] as int == v);
        } else {
            assert(dist_pre[v] is InTree);
            assert(q_contains(ord_pre, v));
            let i = choose|i: int| 0 <= i < ord_pre.len() && #[trigger] ord_pre[i] as int == v;
            assert(ord[i] as int == v);
        }
    }
    assert forall|i: int|
        #![trigger ord[i]]
        0 < i < ord.len() implies exists|j: int|
        #![trigger ord[j]]
        0 <= j < i && par[ord[i] as int] == Option::Some(ord[j]) by {
        if i < ord.len() - 1 {
            let j = choose|j: int|
                #![trigger ord_pre[j]]
                0 <= j < i && par[ord_pre[i] as int] == Option::Some(ord_pre[j]);
            assert(ord[i] == ord_pre[i]);
            assert(ord[j] == ord_pre[j]);
            assert(par[ord[i] as int] == Option::Some(ord[j]));
        } else {
            // the new vertex's candidate parent is already in the tree
            assert(par[c as int] matches Option::Some(p) && dist_pre[p as int] is InTree);
            let p = par[c as int]->Some_0;
            assert(q_contains(ord_pre, p as int));
            let j = choose|j: int|
                0 <= j < ord_pre.len() && #[trigger] ord_pre[j] as int == p as int;
            assert(ord[j] == ord_pre[j]);
            assert(par[ord[i] as int] == Option::Some(ord[j]));
        }
    }
    assert(ord[0] as int == s);
    assert forall|i: int| 0 <= i < ord.len() implies dist[#[trigger] ord[i] as int]
        is InTree by {
        if i < ord.len() - 1 {
            assert(dist_pre[ord_pre[i] as int] is InTree);
            assert(ord_pre[i] as int != c as int);
        }
    }
    assert forall|v: int|
        0 <= v < g.n() && v != s && !((#[trigger] dist[v]) is Undiscovered) implies (
    par[v] matches Option::Some(p) && (p as int) < g.n() && dist[p as int] is InTree && g.has_edge(
        p as int,
        v,
        dist_val(dist[v]),
    )) by {
        assert(!(dist_pre[v] is Undiscovered));
        assert(par[v] matches Option::Some(p) && (p as int) < g.n() && dist_pre[p as int]
            is InTree && g.has_edge(p as int, v, dist_val(dist_pre[v])));
        assert(dist_val(dist[v]) == dist_val(dist_pre[v]));
    }
    assert forall|v: int|
        0 <= v < g.n() && !((#[trigger] dist[v]) is Undiscovered) implies g.reaches(s, v) by {
        assert(!(dist_pre[v] is Undiscovered));
    }
    assert forall|i: int, k: int|
        0 <= i < ord_pre.len() && 0 <= k < g.edges(ord[i] as int).len() implies !(dist[(
    #[trigger] g.edges(ord[i] as int)[k]).target_idx as int] is Undiscovered) by {
        assert(ord[i] == ord_pre[i]);
        assert(0 <= (ord_pre[i] as int) && (ord_pre[i] as int) < g.n());
        let t2: int = (g.edges(ord_pre[i] as int)[k]).target_idx as int;
        assert(t2 < g.n());
        assert(!(dist_pre[t2] is Undiscovered));
        assert(dist[t2] == (if t2 == c as int {
            VertState::InTree(d)
        } else {
            dist_pre[t2]
        }));
    }
    assert(prim_inv(g, s, dist, par, ord, ord_pre.len() as int));
}

/// Finalising a candidate keeps every remaining vertex's connecting
/// weight unchanged over the unchanged scanned prefix.
#[verifier::spinoff_prover]
proof fn lemma_prim_mark_links(
    g: AdjacencyList,
    dist_pre: Seq<VertState>,
    dist: Seq<VertState>,
    pref: Seq<usize>,
    c: usize,
    d: usize,
)
    requires
        dist_pre.len() == g.n(),
        (c as int) < g.n(),
        dist == dist_pre.update(c as int, VertState::InTree(d)),
        prim_links(g, dist_pre, pref),
    ensures
        prim_links(g, dist, pref),
{
    assert forall|v: int|
        0 <= v < g.n() && dist[v] is Undiscovered implies (#[trigger] min_link(
        g,
        pref,
        v,
    )) is None by {
        assert(v != c as int);
        assert(dist_pre[v] is Undiscovered);
    }
    assert forall|v: int|
        0 <= v < g.n() implies ((#[trigger] dist[v]) matches VertState::NotInTree(dd)
        ==> min_link(g, pref, v) == Option::Some(dd as int)) by {
        if dist[v] is NotInTree {
            assert(v != c as int);
            assert(dist_pre[v] == dist[v]);
        }
    }
}


/// When no candidate remains, the finalised vertices are exactly the
/// start vertex's component.
#[verifier::rlimit(100)]
#[verifier::spinoff_prover]
proof fn lemma_prim_coverage(
    g: AdjacencyList,
    s: int,
    dist: Seq<VertState>,
    par: Seq<Option<usize>>,
    ord: Seq<usize>,
)
    requires
        g.wf(),
        prim_inv(g, s, dist, par, ord, ord.len() as int),
        forall|j: int| 0 <= j < dist.len() ==> !((#[trigger] dist[j]) is NotInTree),
    ensures
        forall|v: int| 0 <= v < g.n() ==> (g.reaches(s, v) <==> (#[trigger] dist[v]) is InTree),
{
    let vis = Set::new(|v: int| 0 <= v < g.n() && dist[v] is InTree);
    assert forall|v: int| 0 <= v < g.n() implies (g.reaches(s, v) <==> dist[v] is InTree) by {
        if g.reaches(s, v) {
            assert forall|u2: int, k2: int|
                vis.contains(u2) && 0 <= u2 < g.n() && 0 <= k2 < g.edges(
                    u2,
                ).len() implies vis.contains((#[trigger] g.edges(u2)[k2]).target_idx as int) by {
                assert(dist[u2] is InTree);
                assert(q_contains(ord, u2));
                let i = choose|i: int| 0 <= i < ord.len() && #[trigger] ord[i] as int == u2;
                let t2 = g.edges(ord[i] as int)[k2].target_idx as int;
                assert(!(dist[t2] is Undiscovered));
                assert(dist[t2] is InTree);
            }
            g.lemma_reaches_in_closed_set(s, v, vis);
        }
    }
}

/// Map the finished construction onto the returned records.
#[verifier::rlimit(100)]
#[verifier::spinoff_prover]
proof fn lemma_prim_finish(
    g: AdjacencyList,
    s: int,
    dist: Seq<VertState>,
    par: Seq<Option<usize>>,
    ord: Seq<usize>,
    t: Seq<SpanningTree>,
)
    requires
        g.wf(),
        prim_inv(g, s, dist, par, ord, ord.len() as int),
        forall|j: int| 0 <= j < dist.len() ==> !((#[trigger] dist[j]) is NotInTree),
        forall|v: int| 0 <= v < g.n() ==> (g.reaches(s, v) <==> (#[trigger] dist[v]) is InTree),
        t.len() == g.n(),
        forall|v: int|
            0 <= v < g.n() ==> (#[trigger] t[v]).label@ == g.label_of(v) && t[v].parent_idx
                == par[v] && t[v].distance as int == dist_val(dist[v]),
    ensures
        t[s].parent_idx is None,
        t[s].distance == 0,
        forall|v: int|
            0 <= v < g.n() && v != s ==> (g.reaches(s, v) <==> (#[trigger] t[v]).parent_idx
                is Some),
        forall|v: int|
            0 <= v < g.n() && !g.reaches(s, v) ==> (#[trigger] t[v]).parent_idx is None
                && t[v].distance == 0,
        forall|v: int|
            0 <= v < g.n() ==> ((#[trigger] t[v]).parent_idx matches Option::Some(p) ==> (p as int)
                < g.n() && g.has_edge(p as int, v, t[v].distance as int) && g.reaches(s, p as int)),
        prim_tree_order(g, s, t, ord),
{
    assert(t[s].distance as int == dist_val(VertState::InTree(0)));
    assert forall|v: int|
        0 <= v < g.n() && v != s implies (g.reaches(s, v) <==> (#[trigger] t[v]).parent_idx
        is Some) by {
        if g.reaches(s, v) {
            assert(dist[v] is InTree);
            assert(par[v] is Some);
        }
        if t[v].parent_idx is Some {
            assert(par[v] is Some);
            assert(!(dist[v] is Undiscovered));
        }
    }
    assert forall|v: int|
        0 <= v < g.n() && !g.reaches(s, v) implies (#[trigger] t[v]).parent_idx is None
        && t[v].distance == 0 by {
        assert(!(dist[v] is InTree));
        assert(dist[v] is Undiscovered);
        assert(dist_val(dist[v]) == 0);
    }
    assert forall|v: int|
        0 <= v < g.n() && (#[trigger] t[v]).parent_idx is Some implies ((
    t[v].parent_idx->Some_0 as int) < g.n() && g.has_edge(
        t[v].parent_idx->Some_0 as int,
        v,
        t[v].distance as int,
    ) && g.reaches(s, t[v].parent_idx->Some_0 as int)) by {
        assert(par[v] is Some);
        assert(!(dist[v] is Undiscovered));
        assert(v != s);
        let p = par[v]->Some_0;
        assert(par[v] matches Option::Some(p2) && (p2 as int) < g.n() && dist[p2 as int]
            is InTree && g.has_edge(p2 as int, v, dist_val(dist[v])));
        assert(!(dist[p as int] is Undiscovered));
    }
    assert(prim_tree_order(g, s, t, ord)) by {
        assert forall|v: int|
            0 <= v < g.n() implies (q_contains(ord, v) <==> (v == s || t[v].parent_idx
            is Some)) by {
            if q_contains(ord, v) {
                let i2 = choose|i2: int| 0 <= i2 < ord.len() && #[trigger] ord[i2] as int == v;
                assert(dist[v] is InTree);
                if v != s {
                    assert(par[v] is Some);
                }
            }
            if v != s && t[v].parent_idx is Some {
                assert(!(dist[v] is Undiscovered));
                assert(dist[v] is InTree);
            }
            if v == s {
                assert(ord[0] as int == v);
            }
        }
        assert forall|i2: int|
            #![trigger ord[i2]]
            0 < i2 < ord.len() implies exists|j: int|
            #![trigger ord[j]]
            0 <= j < i2 && t[ord[i2] as int].parent_idx == Option::Some(ord[j]) by {
            let j = choose|j: int|
                #![trigger ord[j]]
                0 <= j < i2 && par[ord[i2] as int] == Option::Some(ord[j]);
            assert(t[ord[i2] as int].parent_idx == Option::Some(ord[j]));
        }
    }
}

impl AdjacencyList {
    /// Relax the edges of the vertex finalised last: untouched targets
    /// become candidates with this connecting edge, and a candidate's
    /// record improves when a strictly lighter edge appears; finalised
    /// targets stay as they are.
    #[verifier::rlimit(100)]
    #[verifier::spinoff_prover]
    fn prim_scan(
        &self,
        Ghost(s): Ghost<int>,
        Ghost(ord): Ghost<Seq<usize>>,
        u: usize,
        dist: &mut Vec<VertState>,
        parent: &mut Vec<Option<usize>>,
    )
        requires
            self.wf(),
            self.nonnegative,
            prim_inv(*self, s, old(dist)@, old(parent)@, ord, ord.len() - 1),
            u == ord.last(),
            prim_links(*self, old(dist)@, ord.take(ord.len() - 1)),
        ensures
            prim_inv(*self, s, final(dist)@, final(parent)@, ord, ord.len() as int),
            prim_links(*self, final(dist)@, ord),
            forall|v: int|
                0 <= v < self.n() && old(dist)@[v] is InTree ==> #[trigger] final(dist)@[v] == old(
                    dist,
                )@[v],
            forall|v: int|
                0 <= v < self.n() && old(dist)@[v] is InTree ==> #[trigger] final(parent)@[v]
                    == old(parent)@[v],
            forall|v: int|
                0 <= v < self.n() ==> ((#[trigger] final(dist)@[v]) is InTree == old(
                    dist,
                )@[v] is InTree),
            count_outside(final(dist)@) == count_outside(old(dist)@),
    {
        let ghost gu = u as int;
        let ghost pref: Seq<usize> = ord.take(ord.len() - 1);
        let ghost pref1: Seq<usize> = pref.push(u);
        proof {
            assert(ord[ord.len() - 1] == u);
            assert(dist@[gu] is InTree);
            assert(pref1 =~= ord);
        }
        let deg = self.vertices[u].edges.len();
        let mut k: usize = 0;
        while k < deg
            invariant
                self.wf(),
                self.nonnegative,
                gu == u as int,
                0 <= gu < self.n(),
                deg == self.edges(gu).len(),
                k <= deg,
                u == ord.last(),
                ord.len() >= 1,
                prim_inv(*self, s, dist@, parent@, ord, ord.len() - 1),
                forall|v: int|
                    0 <= v < self.n() && old(dist)@[v] is InTree ==> #[trigger] dist@[v] == old(
                        dist,
                    )@[v],
                forall|v: int|
                    0 <= v < self.n() && old(dist)@[v] is InTree ==> #[trigger] parent@[v] == old(
                        parent,
                    )@[v],
                forall|v: int|
                    0 <= v < self.n() ==> ((#[trigger] dist@[v]) is InTree == old(
                        dist,
                    )@[v] is InTree),
                count_outside(dist@) == count_outside(old(dist)@),
                forall|kk: int|
                    0 <= kk < k ==> !(dist@[(#[trigger] self.edges(gu)[kk]).target_idx as int]
                        is Undiscovered),
                pref == ord.take(ord.len() - 1),
                pref1 == pref.push(u),
                forall|v: int|
                    0 <= v < self.n() && dist@[v] is Undiscovered ==> !edge_done(
                        *self,
                        gu,
                        k as int,
                        v,
                    ) && (#[trigger] min_link(*self, pref, v)) is None,
                forall|v: int|
                    0 <= v < self.n() ==> ((#[trigger] dist@[v]) matches VertState::NotInTree(dd)
                        ==> (edge_done(*self, gu, k as int, v) ==> min_link(*self, pref1, v)
                        == Option::Some(dd as int)) && (!edge_done(*self, gu, k as int, v)
                        ==> min_link(*self, pref, v) == Option::Some(dd as int))),
            decreases deg - k,
        {
            let t = self.vertices[u].edges[k].target_idx;
            let w = self.vertices[u].edges[k].weight;
            proof {
                assert(self.edges(gu)[k as int].target_idx == t);
                assert(self.edges(gu)[k as int].weight == w);
                assert(w >= 0);
                assert((t as int) < self.n());
            }
            let wu: usize = w as usize;
            let ghost dist_pre = dist@;
            let was_und = match dist[t] {
                VertState::Undiscovered => true,
                _ => false,
            };
            let old_d = dist[t].get_or_insert(wu);
            proof {
                if !(dist_pre[t as int] is Undiscovered) {
                    assert(dist@ =~= dist_pre);
                }
            }
            if was_und {
                parent[t] = Option::Some(u);
                proof {
                    lemma_count_outside_update(dist_pre, t as int, VertState::NotInTree(wu));
                    assert(self.edge_to(gu, t as int));
                    assert(self.reaches(s, gu));
                    self.lemma_reaches_step(s, gu, t as int);
                    assert(self.has_edge(gu, t as int, wu as int));
                    assert(dist@ == dist_pre.update(t as int, VertState::NotInTree(wu)));
                }
            } else {
                let improves = !dist[t].is_in_tree() && wu < old_d;
                if improves {
                    let ghost dist_mid = dist@;
                    proof {
                        assert(dist_mid == dist_pre);
                    }
                    dist[t] = VertState::NotInTree(wu);
                    parent[t] = Option::Some(u);
                    proof {
                        lemma_count_outside_update(dist_mid, t as int, VertState::NotInTree(wu));
                        assert(self.edge_to(gu, t as int));
                        self.lemma_reaches_step(s, gu, t as int);
                        assert(self.has_edge(gu, t as int, wu as int));
                    }
                }
            }
            proof {
                // connecting-weight bookkeeping for this edge
                let ti: int = t as int;
                if !(dist_pre[ti] is InTree) {
                    assert(ti != gu);
                    lemma_link_weight(*self, gu, ti, k as int);
                    lemma_min_link_push(*self, pref, u, ti);
                }
                if dist_pre[ti] matches VertState::NotInTree(d0) {
                    assert(!edge_done(*self, gu, k as int, ti)) by {
                        if edge_done(*self, gu, k as int, ti) {
                            let kk = choose|kk: int|
                                0 <= kk < k && (#[trigger] self.edges(gu)[kk]).target_idx as int
                                    == ti;
                            assert(self.edges(gu)[kk].target_idx != gu);
                            assert(self.edges(gu)[kk].target_idx != self.edges(
                                gu,
                            )[k as int].target_idx);
                        }
                    }
                }
                assert forall|v: int|
                    0 <= v < self.n() && dist@[v] is Undiscovered implies !edge_done(
                    *self,
                    gu,
                    k as int + 1,
                    v,
                ) && (#[trigger] min_link(*self, pref, v)) is None by {
                    assert(!(v == ti));
                    assert(dist_pre[v] is Undiscovered);
                    assert forall|kk: int| 0 <= kk < k + 1 implies (#[trigger] self.edges(
                        gu,
                    )[kk]).target_idx as int != v by {
                        if kk == k {
                            assert(self.edges(gu)[kk].target_idx as int == ti);
                        }
                    }
                }
                assert forall|v: int|
                    0 <= v < self.n() implies ((#[trigger] dist@[v]) matches VertState::NotInTree(
                    dd,
                ) ==> (edge_done(*self, gu, k as int + 1, v) ==> min_link(*self, pref1, v)
                    == Option::Some(dd as int)) && (!edge_done(*self, gu, k as int + 1, v)
                    ==> min_link(*self, pref, v) == Option::Some(dd as int))) by {
                    if dist@[v] is NotInTree {
                        if v == ti {
                            assert(edge_done(*self, gu, k as int + 1, v)) by {
                                assert(self.edges(gu)[k as int].target_idx as int == v);
                            }
                            if dist_pre[ti] is Undiscovered {
                                assert(min_link(*self, pref, ti) is None);
                                assert(min_link(*self, pref1, ti) == Option::Some(wu as int));
                                assert(dist@[ti] == VertState::NotInTree(wu));
                            } else {
                                let d0 = dist_pre[ti]->NotInTree_0;
                                assert(min_link(*self, pref, ti) == Option::Some(d0 as int));
                                assert(min_link(*self, pref1, ti) == Option::Some(
                                    if d0 as int <= wu as int {
                                        d0 as int
                                    } else {
                                        wu as int
                                    },
                                ));
                            }
                        } else {
                            assert(dist@[v] == dist_pre[v]);
                            assert(edge_done(*self, gu, k as int + 1, v) == edge_done(
                                *self,
                                gu,
                                k as int,
                                v,
                            )) by {
                                if edge_done(*self, gu, k as int + 1, v) && !edge_done(
                                    *self,
                                    gu,
                                    k as int,
                                    v,
                                ) {
                                    let kk = choose|kk: int|
                                        0 <= kk < k + 1 && (#[trigger] self.edges(
                                            gu,
                                        )[kk]).target_idx as int == v;
                                    assert(kk == k);
                                }
                            }
                        }
                    }
                }
            }
            k = k + 1;
        }
        proof {
            assert forall|v: int|
                0 <= v < self.n() && dist@[v] is Undiscovered implies (#[trigger] min_link(
                *self,
                ord,
                v,
            )) is None by {
                assert(!edge_done(*self, gu, deg as int, v));
                assert(link_weight(*self, gu, v) is None) by {
                    if self.edge_to(gu, v) {
                        let kk = choose|kk: int|
                            0 <= kk < self.edges(gu).len() && (#[trigger] self.edges(
                                gu,
                            )[kk]).target_idx == v;
                        assert(edge_done(*self, gu, deg as int, v));
                    }
                }
                lemma_min_link_push(*self, pref, u, v);
                assert(min_link(*self, pref1, v) is None);
            }
            assert forall|v: int|
                0 <= v < self.n() implies ((#[trigger] dist@[v]) matches VertState::NotInTree(dd)
                ==> min_link(*self, ord, v) == Option::Some(dd as int)) by {
                if dist@[v] is NotInTree {
                    if !edge_done(*self, gu, deg as int, v) {
                        assert(link_weight(*self, gu, v) is None) by {
                            if self.edge_to(gu, v) {
                                let kk = choose|kk: int|
                                    0 <= kk < self.edges(gu).len() && (#[trigger] self.edges(
                                        gu,
                                    )[kk]).target_idx == v;
                                assert(edge_done(*self, gu, deg as int, v));
                            }
                        }
                        lemma_min_link_push(*self, pref, u, v);
                    }
                    assert(min_link(*self, pref1, v) == Option::Some(
                        dist@[v]->NotInTree_0 as int,
                    ));
                }
            }
            assert(prim_links(*self, dist@, ord));
        }
    }

    /// Build the minimum spanning forest of the start vertex's
    /// component: one record per vertex, the root and unreachable
    /// vertices without a parent at distance 0, every other reachable
    /// vertex connected to its finalised parent by a stored edge whose
    /// weight is the recorded distance.
    #[verifier::rlimit(100)]
    #[verifier::spinoff_prover]
    pub fn prim(&self, start_label: &str) -> (r: Result<Vec<SpanningTree>, PrimError>)
        requires
            self.wf(),
        ensures
            match r {
                Result::Ok(t) => {
                    &&& !self.directed && self.nonnegative && self.has_label(start_label@)
                    &&& t@.len() == self.n()
                    &&& (forall|i: int|
                        0 <= i < self.n() ==> (#[trigger] t@[i]).label@ == self.label_of(i))
                    &&& t@[self.vertex_of_label(start_label@)].parent_idx is None
                    &&& t@[self.vertex_of_label(start_label@)].distance == 0
                    &&& (forall|v: int|
                        0 <= v < self.n() && v != self.vertex_of_label(start_label@) ==> (
                        self.reaches(self.vertex_of_label(start_label@), v) <==> (
                        #[trigger] t@[v]).parent_idx is Some))
                    &&& (forall|v: int|
                        0 <= v < self.n() && !self.reaches(self.vertex_of_label(start_label@), v)
                            ==> (#[trigger] t@[v]).parent_idx is None && t@[v].distance == 0)
                    &&& (forall|v: int|
                        0 <= v < self.n() ==> ((#[trigger] t@[v]).parent_idx matches Option::Some(
                            p,
                        ) ==> (p as int) < self.n() && self.has_edge(
                            p as int,
                            v,
                            t@[v].distance as int,
                        ) && self.reaches(self.vertex_of_label(start_label@), p as int)))
                    &&& (exists|ord: Seq<usize>|
                        prim_tree_order(*self, self.vertex_of_label(start_label@), t@, ord)
                            && prim_greedy(*self, self.vertex_of_label(start_label@), t@, ord))
                },
                Result::Err(PrimError::DirectedGraph) => self.directed,
                Result::Err(PrimError::NegativeWeights) => !self.directed && !self.nonnegative,
                Result::Err(PrimError::UnknownLabel) => !self.directed && self.nonnegative
                    && !self.has_label(start_label@),
            },
    {
        if self.directed {
            return Result::Err(PrimError::DirectedGraph);
        }
        if !self.nonnegative {
            return Result::Err(PrimError::NegativeWeights);
        }
        let s = match self.vertex_by_label(start_label) {
            Option::Some(i) => i,
            Option::None => {
                return Result::Err(PrimError::UnknownLabel);
            },
        };
        proof {
            assert(self.has_label(start_label@));
            assert(self.vertex_of_label(start_label@) == s as int) by {
                let i = self.vertex_of_label(start_label@);
                assert(0 <= i < self.n() && self.label_of(i) == start_label@);
            }
        }
        let ghost gs = s as int;
        let n = self.len();
        let mut dist: Vec<VertState> = make_dist(n);
        let mut parent: Vec<Option<usize>> = make_parents(n);
        dist[s] = VertState::InTree(0);
        let ghost mut ord: Seq<usize> = Seq::<usize>::empty().push(s);
        proof {
            self.lemma_reaches_refl(gs);
            assert forall|v: int|
                0 <= v < self.n() && dist@[v] is InTree implies q_contains(ord, v) by {
                assert(v == gs);
                assert(ord[0] as int == v);
            }
            assert(prim_inv(*self, gs, dist@, parent@, ord, 0));
            assert(ord.take(ord.len() - 1) =~= Seq::<usize>::empty());
            assert forall|v: int| 0 <= v < self.n() implies (#[trigger] min_link(
                *self,
                ord.take(ord.len() - 1),
                v,
            )) is None by {
                assert(min_link(*self, ord.take(ord.len() - 1), v) == Option::<int>::None);
            }
            assert(prim_links(*self, dist@, ord.take(ord.len() - 1)));
        }
        self.prim_scan(Ghost(gs), Ghost(ord), s, &mut dist, &mut parent);
        let mut nxt = select_min(&dist);
        while nxt.is_some()
            invariant
                self.wf(),
                self.nonnegative,
                gs == s as int,
                n == self.n(),
                prim_inv(*self, gs, dist@, parent@, ord, ord.len() as int),
                prim_links(*self, dist@, ord),
                match nxt {
                    Option::Some(c) => (c as int) < self.n() && dist@[c as int] is NotInTree && (
                    forall|j: int|
                        0 <= j < dist@.len() && (#[trigger] dist@[j]) is NotInTree ==> dist_val(
                            dist@[j],
                        ) >= dist_val(dist@[c as int])) && (forall|j: int|
                        0 <= j < c ==> ((#[trigger] dist@[j]) is NotInTree ==> dist_val(dist@[j])
                            > dist_val(dist@[c as int]))),
                    Option::None => forall|j: int|
                        0 <= j < dist@.len() ==> !((#[trigger] dist@[j]) is NotInTree),
                },
                forall|i: int|
                    1 <= i < ord.len() ==> #[trigger] greedy_pick(
                        *self,
                        ord.take(i),
                        ord[i] as int,
                    ),
                forall|i: int|
                    1 <= i < ord.len() ==> min_link(*self, ord.take(i), #[trigger] ord[i] as int)
                        == Option::Some(dist_val(dist@[ord[i] as int])),
            decreases count_outside(dist@),
        {
            let c = nxt.unwrap();
            proof {
                lemma_count_outside_pos(dist@, c as int);
            }
            let d = dist[c].unwrap();
            let ghost ord_pre = ord;
            let ghost dist_pre = dist@;
            proof {
                lemma_count_outside_update(dist@, c as int, VertState::InTree(d));
            }
            dist[c] = VertState::InTree(d);
            proof {
                ord = ord.push(c);
                lemma_prim_mark(*self, gs, dist_pre, dist@, parent@, ord_pre, c, d);
                lemma_prim_mark_links(*self, dist_pre, dist@, ord_pre, c, d);
                assert(ord.take(ord.len() - 1) =~= ord_pre);
                // this finalisation is the greedy one: `c` was a
                // lightest-connected candidate, lowest index on ties
                assert(min_link(*self, ord_pre, c as int) == Option::Some(d as int));
                assert(greedy_pick(*self, ord_pre, c as int)) by {
                    assert forall|v: int|
                        0 <= v < self.n() && !q_contains(ord_pre, v) && v != c as int implies ((
                    #[trigger] min_link(*self, ord_pre, v)) matches Option::Some(dv) ==> dv
                        > min_link(*self, ord_pre, c as int)->Some_0 || (dv == min_link(
                        *self,
                        ord_pre,
                        c as int,
                    )->Some_0 && (c as int) < v)) by {
                        if min_link(*self, ord_pre, v) is Some {
                            assert(!(dist_pre[v] is Undiscovered));
                            assert(!(dist_pre[v] is InTree)) by {
                                if dist_pre[v] is InTree {
                                    assert(q_contains(ord_pre, v));
                                }
                            }
                            assert(dist_pre[v] is NotInTree);
                            assert(min_link(*self, ord_pre, v) == Option::Some(
                                dist_val(dist_pre[v]),
                            ));
                            assert(dist_val(dist_pre[v]) >= d);
                            if v < c as int {
                                assert(dist_val(dist_pre[v]) > d);
                            }
                        }
                    }
                }
                assert forall|i: int|
                    1 <= i < ord.len() implies #[trigger] greedy_pick(
                    *self,
                    ord.take(i),
                    ord[i] as int,
                ) by {
                    if i < ord.len() - 1 {
                        assert(ord.take(i) =~= ord_pre.take(i));
                        assert(ord[i] == ord_pre[i]);
                        assert(greedy_pick(*self, ord_pre.take(i), ord_pre[i] as int));
                    } else {
                        assert(ord.take(i) =~= ord_pre);
                        assert(ord[i] == c);
                    }
                }
                assert forall|i: int|
                    1 <= i < ord.len() implies min_link(*self, ord.take(i), #[trigger] ord[
                    i] as int) == Option::Some(dist_val(dist@[ord[i] as int])) by {
                    if i < ord.len() - 1 {
                        assert(ord.take(i) =~= ord_pre.take(i));
                        assert(ord[i] == ord_pre[i]);
                        assert(dist_pre[ord_pre[i] as int] is InTree);
                        assert(ord_pre[i] as int != c as int);
                        assert(dist@[ord[i] as int] == dist_pre[ord_pre[i] as int]);
                    } else {
                        assert(ord.take(i) =~= ord_pre);
                        assert(ord[i] == c);
                        assert(dist@[c as int] == VertState::InTree(d));
                    }
                }
            }
            self.prim_scan(Ghost(gs), Ghost(ord), c, &mut dist, &mut parent);
            nxt = select_min(&dist);
        }
        proof {
            lemma_prim_coverage(*self, gs, dist@, parent@, ord);
        }
        let mut out: Vec<SpanningTree> = Vec::new();
        let mut i: usize = 0;
        while i < n
            invariant
                self.wf(),
                n == self.n(),
                gs == s as int,
                i <= n,
                out@.len() == i,
                prim_inv(*self, gs, dist@, parent@, ord, ord.len() as int),
                forall|j: int| 0 <= j < dist@.len() ==> !((#[trigger] dist@[j]) is NotInTree),
                forall|v: int|
                    0 <= v < self.n() ==> (self.reaches(gs, v) <==> (#[trigger] dist@[v])
                        is InTree),
                forall|v: int|
                    0 <= v < i ==> (#[trigger] out@[v]).label@ == self.label_of(v)
                        && out@[v].parent_idx == parent@[v] && out@[v].distance as int == dist_val(
                        dist@[v],
                    ),
            decreases n - i,
        {
            let rec = match dist[i] {
                VertState::Undiscovered => SpanningTree {
                    label: self.vertices[i].label.clone(),
                    parent_idx: Option::None,
                    distance: 0,
                },
                VertState::InTree(d) => SpanningTree {
                    label: self.vertices[i].label.clone(),
                    parent_idx: parent[i],
                    distance: d,
                },
                VertState::NotInTree(d) => SpanningTree {
                    label: self.vertices[i].label.clone(),
                    parent_idx: parent[i],
                    distance: d,
                },
            };
            proof {
                if dist@[i as int] is Undiscovered {
                    assert(parent@[i as int] is None);
                }
            }
            out.push(rec);
            i = i + 1;
        }
        proof {
            lemma_prim_finish(*self, gs, dist@, parent@, ord, out@);
            assert(prim_greedy(*self, gs, out@, ord)) by {
                assert forall|i: int|
                    1 <= i < ord.len() implies out@[#[trigger] ord[i] as int].distance as int
                    == min_link(*self, ord.take(i), ord[i] as int)->Some_0 by {
                    assert(min_link(*self, ord.take(i), ord[i] as int) == Option::Some(
                        dist_val(dist@[ord[i] as int]),
                    ));
                    assert(out@[ord[i] as int].distance as int == dist_val(
                        dist@[ord[i] as int],
                    ));
                }
                assert forall|v: int|
                    0 <= v < self.n() && !q_contains(ord, v) implies (#[trigger] min_link(
                    *self,
                    ord,
                    v,
                )) is None by {
                    assert(!(dist@[v] is InTree)) by {
                        if dist@[v] is InTree {
                            assert(q_contains(ord, v));
                        }
                    }
                    assert(!(dist@[v] is NotInTree));
                    assert(dist@[v] is Undiscovered);
                }
            }
            assert(prim_tree_order(*self, gs, out@, ord) && prim_greedy(*self, gs, out@, ord));
        }
        Result::Ok(out)
    }
}

} // verus!
