use vstd::prelude::*;

use crate::graph::AdjacencyList;
use crate::graph::Edge;
use crate::graph::Vertex;

verus! {

/// Discovery state of a vertex during a traversal.
#[derive(Clone, Copy, PartialEq, Eq, Structural, Debug)]
pub enum VertexState {
    Undiscoverd,
    Discovered,
    Processed,
}

/// The way a traversal can fail.
#[derive(Clone, Copy, PartialEq, Eq, Structural, Debug)]
pub enum TraversalError {
    /// The start label is not in the store.
    UnknownLabel,
}

/// One observable traversal event, for specification purposes: a
/// vertex index that was entered or exited, or an edge that was
/// reported (source vertex and position in its edge list).
pub enum TraversalEvent {
    Enter(int),
    Exit(int),
    Edge(int, int),
}

/// How many `Enter(v)` events a log holds.
pub open spec fn count_enters(ev: Seq<TraversalEvent>, v: int) -> int
    decreases ev.len(),
{
    if ev.len() == 0 {
        0
    } else {
        count_enters(ev.drop_last(), v) + if ev.last() == TraversalEvent::Enter(v) {
            1int
        } else {
            0
        }
    }
}

/// How many `Exit(v)` events a log holds.
pub open spec fn count_exits(ev: Seq<TraversalEvent>, v: int) -> int
    decreases ev.len(),
{
    if ev.len() == 0 {
        0
    } else {
        count_exits(ev.drop_last(), v) + if ev.last() == TraversalEvent::Exit(v) {
            1int
        } else {
            0
        }
    }
}

/// Index of the first `Enter(v)` event, or the log's length if absent.
pub open spec fn enter_pos(ev: Seq<TraversalEvent>, v: int) -> int
    decreases ev.len(),
{
    if ev.len() == 0 {
        0
    } else if ev.first() == TraversalEvent::Enter(v) {
        0
    } else {
        1 + enter_pos(ev.drop_first(), v)
    }
}

pub proof fn lemma_count_push(ev: Seq<TraversalEvent>, e: TraversalEvent, v: int)
    ensures
        count_enters(ev.push(e), v) == count_enters(ev, v) + if e == TraversalEvent::Enter(v) {
            1int
        } else {
            0
        },
        count_exits(ev.push(e), v) == count_exits(ev, v) + if e == TraversalEvent::Exit(v) {
            1int
        } else {
            0
        },
{
    assert(ev.push(e).drop_last() =~= ev);
}

pub proof fn lemma_enter_pos_at(ev: Seq<TraversalEvent>, v: int, a: int)
    requires
        0 <= a < ev.len(),
        ev[a] == TraversalEvent::Enter(v),
        forall|j: int| 0 <= j < a ==> ev[j] != TraversalEvent::Enter(v),
    ensures
        enter_pos(ev, v) == a,
    decreases ev.len(),
{
    if a == 0 {
    } else {
        assert(ev.first() != TraversalEvent::Enter(v));
        assert(ev.drop_first()[a - 1] == ev[a]);
        assert forall|j: int| 0 <= j < a - 1 implies ev.drop_first()[j] != TraversalEvent::Enter(
            v,
        ) by {
            assert(ev.drop_first()[j] == ev[j + 1]);
        }
        lemma_enter_pos_at(ev.drop_first(), v, a - 1);
    }
}

/// Whether the vertex index `v` occurs in `q`.
pub open spec fn q_contains(q: Seq<usize>, v: int) -> bool {
    exists|i: int| 0 <= i < q.len() && #[trigger] q[i] as int == v
}

/// A log that consists of an `Enter`/`Exit` pair per entry of `q`, in
/// order, holds exactly one pair per member of `q`.
pub proof fn lemma_structured_counts(ev: Seq<TraversalEvent>, q: Seq<usize>)
    requires
        ev.len() == 2 * q.len(),
        forall|i: int|
            0 <= i < q.len() ==> ev[2 * i] == TraversalEvent::Enter(#[trigger] q[i] as int) && ev[2
                * i + 1] == TraversalEvent::Exit(q[i] as int),
        q.no_duplicates(),
    ensures
        forall|v: int|
            #![trigger count_enters(ev, v)]
            #![trigger count_exits(ev, v)]
            (count_enters(ev, v) == if q_contains(q, v) {
                1int
            } else {
                0
            }) && (count_exits(ev, v) == if q_contains(q, v) {
                1int
            } else {
                0
            }),
    decreases q.len(),
{
    if q.len() == 0 {
    } else {
        let q2 = q.drop_last();
        let ev2 = ev.take(2 * q2.len() as int);
        assert forall|i: int|
            0 <= i < q2.len() implies ev2[2 * i] == TraversalEvent::Enter(#[trigger] q2[i] as int)
            && ev2[2 * i + 1] == TraversalEvent::Exit(q2[i] as int) by {
            assert(q2[i] == q[i]);
        }
        assert(q2.no_duplicates());
        lemma_structured_counts(ev2, q2);
        let u = q.last() as int;
        assert(ev =~= ev2.push(TraversalEvent::Enter(u)).push(TraversalEvent::Exit(u)));
        assert forall|v: int|
            (count_enters(ev, v) == if q_contains(q, v) {
                1int
            } else {
                0
            }) && (count_exits(ev, v) == if q_contains(q, v) {
                1int
            } else {
                0
            }) by {
            lemma_count_push(ev2, TraversalEvent::Enter(u), v);
            lemma_count_push(ev2.push(TraversalEvent::Enter(u)), TraversalEvent::Exit(u), v);
            if v == u {
                assert(!q_contains(q2, v)) by {
                    if q_contains(q2, v) {
                        let i = choose|i: int| 0 <= i < q2.len() && #[trigger] q2[i] as int == v;
                        assert(q[i] as int == v);
                        assert(q[q.len() - 1] as int == v);
                    }
                }
                assert(q_contains(q, v)) by {
                    assert(q[q.len() - 1] as int == v);
                }
            } else {
                assert(q_contains(q, v) == q_contains(q2, v)) by {
                    if q_contains(q, v) {
                        let i = choose|i: int| 0 <= i < q.len() && #[trigger] q[i] as int == v;
                        assert(i < q2.len());
                        assert(q2[i] as int == v);
                    }
                    if q_contains(q2, v) {
                        let i = choose|i: int| 0 <= i < q2.len() && #[trigger] q2[i] as int == v;
                        assert(q[i] as int == v);
                    }
                }
            }
        }
    }
}

/// Number of still-undiscovered vertices; the traversals' termination
/// measure.
pub open spec fn count_und(states: Seq<VertexState>) -> int
    decreases states.len(),
{
    if states.len() == 0 {
        0
    } else {
        count_und(states.drop_last()) + if states.last() == VertexState::Undiscoverd {
            1int
        } else {
            0
        }
    }
}

pub proof fn lemma_count_und_update(s: Seq<VertexState>, i: int, x: VertexState)
    requires
        0 <= i < s.len(),
    ensures
        count_und(s.update(i, x)) == count_und(s) - (if s[i] == VertexState::Undiscoverd {
            1int
        } else {
            0
        }) + (if x == VertexState::Undiscoverd {
            1int
        } else {
            0
        }),
    decreases s.len(),
{
    let t = s.update(i, x);
    if i == s.len() - 1 {
        assert(t.drop_last() =~= s.drop_last());
        assert(t.last() == x);
    } else {
        assert(t.drop_last() =~= s.drop_last().update(i, x));
        assert(t.last() == s.last());
        lemma_count_und_update(s.drop_last(), i, x);
    }
}

pub proof fn lemma_count_und_nonneg(s: Seq<VertexState>)
    ensures
        count_und(s) >= 0,
    decreases s.len(),
{
    if s.len() > 0 {
        lemma_count_und_nonneg(s.drop_last());
    }
}

/// A non-owning view of the current vertex handed to observers; lets
/// them walk the parent chain of the traversal tree so far.
pub struct TraversalVert<'a> {
    pub data: &'a Vertex,
    pub g: &'a AdjacencyList,
    pub parents: &'a Vec<Option<usize>>,
    pub states: &'a Vec<VertexState>,
}

impl<'a> TraversalVert<'a> {
    /// The view points into a well-formed store with traversal arrays
    /// of matching length and in-range parent links.
    pub open spec fn consistent(self) -> bool {
        &&& self.g.wf()
        &&& self.parents@.len() == self.g.n()
        &&& self.states@.len() == self.g.n()
        &&& (self.data.idx as int) < self.g.n()
        &&& *self.data == self.g.vertices@[self.data.idx as int]
        &&& forall|v: int|
            0 <= v < self.g.n() ==> (#[trigger] self.parents@[v] matches Option::Some(p) ==> (
            p as int) < self.g.n())
    }

    /// The view over the parent of the current vertex in the traversal
    /// tree, or an empty result at a root.
    pub fn parent(&self) -> (r: Option<TraversalVert<'a>>)
        requires
            self.consistent(),
        ensures
            match r {
                Option::Some(pv) => {
                    &&& self.parents@[self.data.idx as int] == Option::Some(pv.data.idx)
                    &&& pv.consistent()
                    &&& pv.g == self.g
                    &&& pv.parents == self.parents
                    &&& pv.states == self.states
                },
                Option::None => self.parents@[self.data.idx as int] is None,
            },
    {
        match self.parents[self.data.idx] {
            Option::Some(p) => {
                let pv = TraversalVert {
                    data: &self.g.vertices[p],
                    g: self.g,
                    parents: self.parents,
                    states: self.states,
                };
                Option::Some(pv)
            },
            Option::None => Option::None,
        }
    }

    /// The state of the current vertex at the moment of the callback.
    pub fn state(&self) -> (r: &VertexState)
        requires
            self.consistent(),
        ensures
            *r == self.states@[self.data.idx as int],
    {
        &self.states[self.data.idx]
    }
}

/// Observer slots a traversal drives: entering a vertex, leaving it
/// after its edge scan, and seeing each scanned edge. Implementations
/// belong to the caller; the library promises only the call order.
pub trait TraversalObserver {
    fn on_enter(&mut self, v: TraversalVert<'_>)
        requires
            v.consistent(),
    ;

    fn on_exit(&mut self, v: TraversalVert<'_>)
        requires
            v.consistent(),
    ;

    fn on_edge(&mut self, e: &Edge);
}

fn make_states(n: usize) -> (r: Vec<VertexState>)
    ensures
        r@.len() == n,
        forall|i: int| 0 <= i < n ==> r@[i] == VertexState::Undiscoverd,
{
    let mut r: Vec<VertexState> = Vec::new();
    let mut i: usize = 0;
    while i < n
        invariant
            i <= n,
            r@.len() == i,
            forall|j: int| 0 <= j < i ==> r@[j] == VertexState::Undiscoverd,
        decreases n - i,
    {
        r.push(VertexState::Undiscoverd);
        i = i + 1;
    }
    r
}

pub(crate) fn make_parents(n: usize) -> (r: Vec<Option<usize>>)
    ensures
        r@.len() == n,
        forall|i: int| 0 <= i < n ==> r@[i] is None,
{
    let mut r: Vec<Option<usize>> = Vec::new();
    let mut i: usize = 0;
    while i < n
        invariant
            i <= n,
            r@.len() == i,
            forall|j: int| 0 <= j < i ==> r@[j] is None,
        decreases n - i,
    {
        r.push(Option::None);
        i = i + 1;
    }
    r
}



/// The working state a breadth-first scan maintains: `q` is the
/// discovery queue (the first `head` entries are processed), states
/// and parents describe discovery so far.
#[verifier::opaque]
pub open spec fn bfs_core_inv(
    g: AdjacencyList,
    s: int,
    states: Seq<VertexState>,
    par: Seq<Option<usize>>,
    q: Seq<usize>,
    dep: Seq<int>,
    head: int,
) -> bool {
    &&& states.len() == g.n()
    &&& par.len() == g.n()
    &&& dep.len() == g.n()
    &&& dep[s] == 0
    &&& (forall|i: int| 0 <= i < q.len() ==> dep[#[trigger] q[i] as int] >= 0)
    &&& (forall|i: int, j: int|
        0 <= i <= j < q.len() ==> dep[#[trigger] q[i] as int] <= dep[#[trigger] q[j] as int])
    &&& (head < q.len() ==> (forall|j: int|
        0 <= j < q.len() ==> dep[#[trigger] q[j] as int] <= dep[q[head] as int] + 1))
    &&& (forall|v: int|
        0 <= v < g.n() && v != s && states[v] != VertexState::Undiscoverd ==> ((
        #[trigger] par[v]) matches Option::Some(p) ==> dep[v] == dep[p as int] + 1))
    &&& (forall|v: int|
        0 <= v < g.n() && states[v] != VertexState::Undiscoverd ==> g.dist_at_most(
            s,
            v,
            #[trigger] dep[v],
        ))
    &&& (forall|i: int, k: int|
        0 <= i < head && 0 <= k < g.edges(q[i] as int).len() ==> dep[(#[trigger] g.edges(
            q[i] as int,
        )[k]).target_idx as int] <= dep[q[i] as int] + 1)
    &&& 0 <= s < g.n()
    &&& 0 <= head <= q.len()
    &&& q.len() >= 1
    &&& q[0] as int == s
    &&& (forall|i: int| 0 <= i < q.len() ==> (#[trigger] q[i] as int) < g.n())
    &&& q.no_duplicates()
    &&& (forall|i: int|
        0 <= i < q.len() ==> states[#[trigger] q[i] as int] == (if i < head {
            VertexState::Processed
        } else {
            VertexState::Discovered
        }))
    &&& (forall|v: int|
        0 <= v < g.n() && states[v] != VertexState::Undiscoverd ==> q_contains(q, v))
    &&& par[s] is None
    &&& (forall|v: int|
        0 <= v < g.n() && states[v] == VertexState::Undiscoverd ==> (#[trigger] par[v]) is None)
    &&& (forall|i: int|
        #![trigger q[i]]
        0 < i < q.len() ==> exists|j: int|
            #![trigger q[j]]
            0 <= j < i && par[q[i] as int] == Option::Some(q[j]))
    &&& (forall|i: int| 0 < i < q.len() ==> (#[trigger] q[i] as int) != s)
    &&& (forall|v: int|
        0 <= v < g.n() && v != s && states[v] != VertexState::Undiscoverd ==> ((
        #[trigger] par[v]) matches Option::Some(p) && (p as int) < g.n() && g.edge_to(p as int, v)
            && states[p as int] != VertexState::Undiscoverd))
    &&& (forall|v: int|
        0 <= v < g.n() && states[v] != VertexState::Undiscoverd ==> g.reaches(s, v))
    &&& (forall|i: int, k: int|
        0 <= i < head && 0 <= k < g.edges(q[i] as int).len() ==> states[(#[trigger] g.edges(
            q[i] as int,
        )[k]).target_idx as int] != VertexState::Undiscoverd)
}

/// The log consists of one `Enter`/`Exit` pair per entry of `q`, in
/// `q`'s order: each vertex's exit directly follows its enter, and the
/// pairs appear in dequeue order.
pub open spec fn paired_stream(ev: Seq<TraversalEvent>, q: Seq<usize>) -> bool {
    &&& ev.len() == 2 * q.len()
    &&& forall|i: int|
        0 <= i < q.len() ==> ev[2 * i] == TraversalEvent::Enter(#[trigger] q[i] as int) && ev[2 * i
            + 1] == TraversalEvent::Exit(q[i] as int)
}

/// What a breadth-first traversal from vertex `s` guarantees about its
/// event log and parent array: every vertex reachable from `s` is
/// entered and exited exactly once, unreachable vertices never appear,
/// the log is a sequence of enter/exit pairs in first-in-first-out
/// discovery order starting at `s`, and the parent links form a tree
/// rooted at `s` whose edges are stored edges, each parent entered
/// before its child.
pub open spec fn bfs_post(
    g: AdjacencyList,
    s: int,
    ev: Seq<TraversalEvent>,
    par: Seq<Option<usize>>,
    dep: Seq<int>,
) -> bool {
    &&& par.len() == g.n()
    &&& dep.len() == g.n()
    &&& dep[s] == 0
    &&& (forall|v: int|
        0 <= v < g.n() && v != s && g.reaches(s, v) ==> ((#[trigger] par[v]) matches Option::Some(
            p,
        ) ==> dep[v] == dep[p as int] + 1))
    &&& (forall|v: int|
        0 <= v < g.n() && g.reaches(s, v) ==> dep[v] >= 0 && g.dist_at_most(
            s,
            v,
            #[trigger] dep[v],
        ))
    &&& (forall|v: int|
        0 <= v < g.n() && g.reaches(s, v) && #[trigger] dep[v] > 0 ==> !g.dist_at_most(
            s,
            v,
            dep[v] - 1,
        ))
    &&& (forall|v: int, w: int|
        0 <= v < g.n() && 0 <= w < g.n() && g.reaches(s, v) && g.reaches(s, w) && enter_pos(ev, v)
            <= enter_pos(ev, w) ==> #[trigger] dep[v] <= #[trigger] dep[w])
    &&& (exists|q: Seq<usize>|
        #![trigger paired_stream(ev, q)]
        paired_stream(ev, q) && q.no_duplicates() && q.len() >= 1 && q[0] as int == s && (forall|
            i: int,
        |
            0 <= i < q.len() ==> (#[trigger] q[i] as int) < g.n()) && (forall|v: int|
            0 <= v < g.n() ==> (g.reaches(s, v) <==> q_contains(q, v))))
    &&& (forall|v: int|
        0 <= v < g.n() ==> (g.reaches(s, v) <==> #[trigger] count_enters(ev, v) == 1))
    &&& (forall|v: int| 0 <= v < g.n() ==> #[trigger] count_exits(ev, v) == count_enters(ev, v))
    &&& (forall|v: int|
        0 <= v < g.n() && !g.reaches(s, v) ==> #[trigger] count_enters(ev, v) == 0
            && #[trigger] par[v] is None)
    &&& par[s] is None
    &&& (forall|v: int|
        0 <= v < g.n() && v != s && g.reaches(s, v) ==> ((#[trigger] par[v]) matches Option::Some(
            p,
        ) && (p as int) < g.n() && g.edge_to(p as int, v) && g.reaches(s, p as int) && enter_pos(
            ev,
            p as int,
        ) < enter_pos(ev, v)))
}

/// In a log made of one `Enter`/`Exit` pair per entry of `q`, the
/// first `Enter` of `q[i]` stands at position `2 * i`.
#[verifier::spinoff_prover]
proof fn lemma_bfs_positions(ev: Seq<TraversalEvent>, q: Seq<usize>)
    requires
        ev.len() == 2 * q.len(),
        forall|i: int|
            0 <= i < q.len() ==> ev[2 * i] == TraversalEvent::Enter(#[trigger] q[i] as int) && ev[2
                * i + 1] == TraversalEvent::Exit(q[i] as int),
        q.no_duplicates(),
    ensures
        forall|i: int| 0 <= i < q.len() ==> enter_pos(ev, #[trigger] q[i] as int) == 2 * i,
{
    assert forall|i: int| 0 <= i < q.len() implies enter_pos(ev, #[trigger] q[i] as int) == 2
        * i by {
        assert(ev[2 * i] == TraversalEvent::Enter(q[i] as int));
        assert forall|j: int| 0 <= j < 2 * i implies ev[j] != TraversalEvent::Enter(
            q[i] as int,
        ) by {
            let i2 = j / 2;
            if j == 2 * i2 {
                assert(ev[j] == TraversalEvent::Enter(q[i2] as int));
                assert(q[i2] != q[i]);
            } else {
                assert(j == 2 * i2 + 1);
                assert(ev[j] == TraversalEvent::Exit(q[i2] as int));
            }
        }
        lemma_enter_pos_at(ev, q[i] as int, 2 * i);
    }
}

/// When the whole queue is processed, the queue holds exactly the
/// vertices reachable from the start.
#[verifier::spinoff_prover]
proof fn lemma_bfs_coverage(
    g: AdjacencyList,
    s: int,
    states: Seq<VertexState>,
    par: Seq<Option<usize>>,
    q: Seq<usize>,
    dep: Seq<int>,
)
    requires
        g.wf(),
        bfs_core_inv(g, s, states, par, q, dep, q.len() as int),
    ensures
        forall|v: int| 0 <= v < g.n() ==> (g.reaches(s, v) <==> q_contains(q, v)),
{
    reveal(bfs_core_inv);
    let vis = Set::new(|v: int| 0 <= v < g.n() && states[v] != VertexState::Undiscoverd);
    assert forall|v: int| 0 <= v < g.n() implies (g.reaches(s, v) <==> q_contains(q, v)) by {
        if g.reaches(s, v) {
            assert forall|u2: int, k2: int|
                vis.contains(u2) && 0 <= u2 < g.n() && 0 <= k2 < g.edges(
                    u2,
                ).len() implies vis.contains((#[trigger] g.edges(u2)[k2]).target_idx as int) by {
                let i = choose|i: int| 0 <= i < q.len() && #[trigger] q[i] as int == u2;
                assert(states[(g.edges(q[i] as int)[k2]).target_idx as int]
                    != VertexState::Undiscoverd);
            }
            g.lemma_reaches_in_closed_set(s, v, vis);
        }
        if q_contains(q, v) {
            let i = choose|i: int| 0 <= i < q.len() && #[trigger] q[i] as int == v;
            assert(states[v] != VertexState::Undiscoverd);
        }
    }
}

/// The parent clauses of the finished scan's contract.
#[verifier::rlimit(100)]
#[verifier::spinoff_prover]
proof fn lemma_bfs_finish_parents(
    g: AdjacencyList,
    gs: int,
    ev: Seq<TraversalEvent>,
    q: Seq<usize>,
    par: Seq<Option<usize>>,
)
    requires
        q.len() >= 1,
        q[0] as int == gs,
        forall|i: int| 0 <= i < q.len() ==> (#[trigger] q[i] as int) < g.n(),
        q.no_duplicates(),
        forall|i: int| 0 < i < q.len() ==> (#[trigger] q[i] as int) != gs,
        forall|i: int|
            #![trigger q[i]]
            0 < i < q.len() ==> exists|j: int|
                #![trigger q[j]]
                0 <= j < i && par[q[i] as int] == Option::Some(q[j]),
        forall|i: int|
            0 < i < q.len() ==> ((#[trigger] par[q[i] as int]) matches Option::Some(p) ==> (
            p as int) < g.n() && g.edge_to(p as int, q[i] as int)),
        ev.len() == 2 * q.len(),
        forall|i: int|
            0 <= i < q.len() ==> ev[2 * i] == TraversalEvent::Enter(#[trigger] q[i] as int) && ev[2
                * i + 1] == TraversalEvent::Exit(q[i] as int),
        forall|v: int| 0 <= v < g.n() ==> (g.reaches(gs, v) <==> q_contains(q, v)),
    ensures
        forall|v: int|
            0 <= v < g.n() && v != gs && g.reaches(gs, v) ==> ((#[trigger] par[v]) matches
            Option::Some(p) && (p as int) < g.n() && g.edge_to(p as int, v) && g.reaches(
                gs,
                p as int,
            ) && enter_pos(ev, p as int) < enter_pos(ev, v)),
{
    lemma_bfs_positions(ev, q);
    assert forall|v: int|
        0 <= v < g.n() && v != gs && g.reaches(gs, v) implies ((#[trigger] par[v]) matches
        Option::Some(p) && (p as int) < g.n() && g.edge_to(p as int, v) && g.reaches(gs, p as int)
        && enter_pos(ev, p as int) < enter_pos(ev, v)) by {
        assert(q_contains(q, v));
        let i = choose|i: int| 0 <= i < q.len() && #[trigger] q[i] as int == v;
        assert(i != 0);
        let j = choose|j: int| #![trigger q[j]] 0 <= j < i && par[q[i] as int] == Option::Some(
            q[j],
        );
        assert(par[v] == Option::Some(q[j]));
        assert(q_contains(q, q[j] as int)) by {
            assert(0 <= j < q.len());
        }
        assert(g.reaches(gs, q[j] as int));
        assert(enter_pos(ev, q[j] as int) == 2 * j);
        assert(enter_pos(ev, q[i] as int) == 2 * i);
    }
}

/// Along any walk from `s`, recorded depths grow by at most one per
/// edge, so the depth of a visited vertex is at most any walk's length.
proof fn lemma_bfs_depth_min(
    g: AdjacencyList,
    s: int,
    states: Seq<VertexState>,
    dep: Seq<int>,
    p: Seq<int>,
)
    requires
        g.wf(),
        states.len() == g.n(),
        dep.len() == g.n(),
        0 <= s < g.n(),
        dep[s] == 0,
        states[s] != VertexState::Undiscoverd,
        forall|u: int, k: int|
            0 <= u < g.n() && states[u] != VertexState::Undiscoverd && 0 <= k < g.edges(u).len()
                ==> states[(#[trigger] g.edges(u)[k]).target_idx as int]
                != VertexState::Undiscoverd && dep[(g.edges(u)[k]).target_idx as int] <= dep[u]
                + 1,
        g.is_path(p),
        p.first() == s,
    ensures
        states[p.last()] != VertexState::Undiscoverd,
        dep[p.last()] <= p.len() - 1,
    decreases p.len(),
{
    if p.len() > 1 {
        let q = p.drop_last();
        assert forall|i: int| 0 <= i < q.len() - 1 implies g.edge_to(#[trigger] q[i], q[i + 1]) by {
            assert(q[i] == p[i] && q[i + 1] == p[i + 1]);
        }
        assert(g.is_path(q));
        lemma_bfs_depth_min(g, s, states, dep, q);
        let u = p[p.len() - 2];
        assert(g.edge_to(u, p[p.len() - 1]));
        let k = choose|k: int|
            0 <= k < g.edges(u).len() && (#[trigger] g.edges(u)[k]).target_idx == p[p.len() - 1];
        assert(states[(g.edges(u)[k]).target_idx as int] != VertexState::Undiscoverd);
        assert(dep[(g.edges(u)[k]).target_idx as int] <= dep[u] + 1);
    }
}

/// After a finished scan, every visited vertex's neighbours are
/// visited with depth at most one greater.
#[verifier::rlimit(100)]
#[verifier::spinoff_prover]
proof fn lemma_bfs_closure_depth(
    g: AdjacencyList,
    gs: int,
    states: Seq<VertexState>,
    par: Seq<Option<usize>>,
    q: Seq<usize>,
    dep: Seq<int>,
)
    requires
        g.wf(),
        bfs_core_inv(g, gs, states, par, q, dep, q.len() as int),
    ensures
        forall|u: int, k: int|
            0 <= u < g.n() && states[u] != VertexState::Undiscoverd && 0 <= k < g.edges(u).len()
                ==> states[(#[trigger] g.edges(u)[k]).target_idx as int]
                != VertexState::Undiscoverd && dep[(g.edges(u)[k]).target_idx as int] <= dep[u]
                + 1,
{
    reveal(bfs_core_inv);
    assert forall|u: int, k: int|
        0 <= u < g.n() && states[u] != VertexState::Undiscoverd && 0 <= k < g.edges(
            u,
        ).len() implies states[(#[trigger] g.edges(u)[k]).target_idx as int]
        != VertexState::Undiscoverd && dep[(g.edges(u)[k]).target_idx as int] <= dep[u] + 1 by {
        assert(q_contains(q, u));
        let i = choose|i: int| 0 <= i < q.len() && #[trigger] q[i] as int == u;
        assert(states[(g.edges(q[i] as int)[k]).target_idx as int] != VertexState::Undiscoverd);
        assert(dep[(g.edges(q[i] as int)[k]).target_idx as int] <= dep[q[i] as int] + 1);
    }
}

/// No walk from the start is shorter than a visited vertex's recorded
/// depth.
#[verifier::rlimit(100)]
#[verifier::spinoff_prover]
proof fn lemma_bfs_minimality(
    g: AdjacencyList,
    gs: int,
    states: Seq<VertexState>,
    dep: Seq<int>,
)
    requires
        g.wf(),
        states.len() == g.n(),
        dep.len() == g.n(),
        0 <= gs < g.n(),
        dep[gs] == 0,
        states[gs] != VertexState::Undiscoverd,
        forall|u: int, k: int|
            0 <= u < g.n() && states[u] != VertexState::Undiscoverd && 0 <= k < g.edges(u).len()
                ==> states[(#[trigger] g.edges(u)[k]).target_idx as int]
                != VertexState::Undiscoverd && dep[(g.edges(u)[k]).target_idx as int] <= dep[u]
                + 1,
    ensures
        forall|v: int|
            0 <= v < g.n() && g.reaches(gs, v) && #[trigger] dep[v] > 0 ==> !g.dist_at_most(
                gs,
                v,
                dep[v] - 1,
            ),
{
    assert forall|v: int|
        0 <= v < g.n() && g.reaches(gs, v) && #[trigger] dep[v] > 0 implies !g.dist_at_most(
        gs,
        v,
        dep[v] - 1,
    ) by {
        if g.dist_at_most(gs, v, dep[v] - 1) {
            let p = choose|p: Seq<int>|
                g.is_path(p) && p.first() == gs && p.last() == v && p.len() <= dep[v] - 1 + 1;
            lemma_bfs_depth_min(g, gs, states, dep, p);
        }
    }
}

/// Enter events never decrease in recorded depth: the queue is sorted
/// by depth and enters follow queue order.
#[verifier::rlimit(100)]
#[verifier::spinoff_prover]
proof fn lemma_bfs_enter_order(
    g: AdjacencyList,
    gs: int,
    ev: Seq<TraversalEvent>,
    q: Seq<usize>,
    dep: Seq<int>,
)
    requires
        ev.len() == 2 * q.len(),
        forall|i: int|
            0 <= i < q.len() ==> ev[2 * i] == TraversalEvent::Enter(#[trigger] q[i] as int) && ev[2
                * i + 1] == TraversalEvent::Exit(q[i] as int),
        q.no_duplicates(),
        forall|i: int, j: int|
            0 <= i <= j < q.len() ==> dep[#[trigger] q[i] as int] <= dep[#[trigger] q[j] as int],
        forall|v: int| 0 <= v < g.n() ==> (g.reaches(gs, v) <==> q_contains(q, v)),
    ensures
        forall|v: int, w: int|
            0 <= v < g.n() && 0 <= w < g.n() && g.reaches(gs, v) && g.reaches(gs, w) && enter_pos(
                ev,
                v,
            ) <= enter_pos(ev, w) ==> #[trigger] dep[v] <= #[trigger] dep[w],
{
    lemma_bfs_positions(ev, q);
    assert forall|v: int, w: int|
        0 <= v < g.n() && 0 <= w < g.n() && g.reaches(gs, v) && g.reaches(gs, w) && enter_pos(
            ev,
            v,
        ) <= enter_pos(ev, w) implies #[trigger] dep[v] <= #[trigger] dep[w] by {
        assert(q_contains(q, v));
        assert(q_contains(q, w));
        let i = choose|i: int| 0 <= i < q.len() && #[trigger] q[i] as int == v;
        let j = choose|j: int| 0 <= j < q.len() && #[trigger] q[j] as int == w;
        assert(enter_pos(ev, q[i] as int) == 2 * i);
        assert(enter_pos(ev, q[j] as int) == 2 * j);
        assert(i <= j);
        assert(dep[q[i] as int] <= dep[q[j] as int]);
    }
}

/// The exactness clauses of the recorded depths: each visited vertex
/// has a walk of its depth from the start and no shorter one.
#[verifier::rlimit(100)]
#[verifier::spinoff_prover]
proof fn lemma_bfs_finish_depth(
    g: AdjacencyList,
    gs: int,
    q: Seq<usize>,
    states: Seq<VertexState>,
    par: Seq<Option<usize>>,
    dep: Seq<int>,
)
    requires
        g.wf(),
        bfs_core_inv(g, gs, states, par, q, dep, q.len() as int),
        forall|v: int| 0 <= v < g.n() ==> (g.reaches(gs, v) <==> q_contains(q, v)),
    ensures
        forall|v: int|
            0 <= v < g.n() && g.reaches(gs, v) ==> dep[v] >= 0 && g.dist_at_most(
                gs,
                v,
                #[trigger] dep[v],
            ),
        forall|v: int|
            0 <= v < g.n() && g.reaches(gs, v) && #[trigger] dep[v] > 0 ==> !g.dist_at_most(
                gs,
                v,
                dep[v] - 1,
            ),
{
    reveal(bfs_core_inv);
    assert forall|v: int|
        0 <= v < g.n() && g.reaches(gs, v) implies states[v] != VertexState::Undiscoverd by {
        assert(q_contains(q, v));
        let i = choose|i: int| 0 <= i < q.len() && #[trigger] q[i] as int == v;
        assert(states[q[i] as int] == VertexState::Processed);
    }
    lemma_bfs_closure_depth(g, gs, states, par, q, dep);
    lemma_bfs_minimality(g, gs, states, dep);
}

/// From the state a finished breadth-first scan leaves behind,
/// conclude the traversal's public contract.
#[verifier::rlimit(100)]
#[verifier::spinoff_prover]
proof fn lemma_bfs_finish(
    g: AdjacencyList,
    gs: int,
    ev: Seq<TraversalEvent>,
    q: Seq<usize>,
    states: Seq<VertexState>,
    par: Seq<Option<usize>>,
    dep: Seq<int>,
)
    requires
        g.wf(),
        bfs_core_inv(g, gs, states, par, q, dep, q.len() as int),
        ev.len() == 2 * q.len(),
        forall|i: int|
            0 <= i < q.len() ==> ev[2 * i] == TraversalEvent::Enter(#[trigger] q[i] as int) && ev[2
                * i + 1] == TraversalEvent::Exit(q[i] as int),
    ensures
        bfs_post(g, gs, ev, par, dep),
{
    reveal(bfs_core_inv);
    lemma_bfs_coverage(g, gs, states, par, q, dep);
    lemma_structured_counts(ev, q);
    lemma_bfs_finish_depth(g, gs, q, states, par, dep);
    lemma_bfs_enter_order(g, gs, ev, q, dep);
    assert(paired_stream(ev, q));
    assert forall|i: int|
        0 < i < q.len() implies ((#[trigger] par[q[i] as int]) matches Option::Some(p) ==> (
    p as int) < g.n() && g.edge_to(p as int, q[i] as int)) by {
        assert(states[q[i] as int] != VertexState::Undiscoverd);
        assert(q[i] as int != gs);
    }
    lemma_bfs_finish_parents(g, gs, ev, q, par);
    assert forall|v: int|
        0 <= v < g.n() && !g.reaches(gs, v) implies #[trigger] count_enters(ev, v) == 0 && (
    #[trigger] par[v]) is None by {
        assert(!q_contains(q, v));
        assert(states[v] == VertexState::Undiscoverd) by {
            if states[v] != VertexState::Undiscoverd {
                assert(q_contains(q, v));
            }
        }
    }
}


/// Discovering a fresh vertex from the queue head preserves the scan's
/// working-state invariant.
#[verifier::rlimit(100)]
#[verifier::spinoff_prover]
proof fn lemma_bfs_discover(
    g: AdjacencyList,
    s: int,
    st_pre: Seq<VertexState>,
    par_pre: Seq<Option<usize>>,
    q_pre: Seq<usize>,
    dp_pre: Seq<int>,
    states: Seq<VertexState>,
    par: Seq<Option<usize>>,
    q: Seq<usize>,
    dp: Seq<int>,
    head: int,
    u: usize,
    t: usize,
)
    requires
        g.wf(),
        bfs_core_inv(g, s, st_pre, par_pre, q_pre, dp_pre, head),
        0 <= head < q_pre.len(),
        u == q_pre[head],
        (t as int) < g.n(),
        st_pre[t as int] == VertexState::Undiscoverd,
        g.edge_to(u as int, t as int),
        g.reaches(s, t as int),
        g.dist_at_most(s, t as int, dp_pre[u as int] + 1),
        states == st_pre.update(t as int, VertexState::Discovered),
        par == par_pre.update(t as int, Option::Some(u)),
        q == q_pre.push(t),
        dp == dp_pre.update(t as int, dp_pre[u as int] + 1),
    ensures
        bfs_core_inv(g, s, states, par, q, dp, head),
{
    reveal(bfs_core_inv);
    assert(!q_contains(q_pre, t as int));
    assert(st_pre[u as int] != VertexState::Undiscoverd);
    assert(t as int != s);
    assert forall|i: int|
        #![trigger q[i]]
        0 < i < q.len() implies exists|j: int|
        #![trigger q[j]]
        0 <= j < i && par[q[i] as int] == Option::Some(q[j]) by {
        if i < q.len() - 1 {
            let j = choose|j: int|
                #![trigger q_pre[j]]
                0 <= j < i && par_pre[q_pre[i] as int] == Option::Some(q_pre[j]);
            assert(q[i] == q_pre[i]);
            assert(q_pre[i] as int != t as int);
            assert(par[q[i] as int] == par_pre[q_pre[i] as int]);
            assert(q[j] == q_pre[j]);
            assert(par[q[i] as int] == Option::Some(q[j]));
        } else {
            assert(q[i] == t);
            assert(par[q[i] as int] == Option::Some(q[head]));
        }
    }
    assert forall|v: int|
        0 <= v < g.n() && states[v] != VertexState::Undiscoverd implies q_contains(q, v) by {
        if v == t as int {
            assert(q[q.len() - 1] as int == v);
        } else {
            assert(st_pre[v] != VertexState::Undiscoverd);
            let i = choose|i: int| 0 <= i < q_pre.len() && #[trigger] q_pre[i] as int == v;
            assert(q[i] as int == v);
        }
    }
    assert forall|i: int|
        0 <= i < q.len() implies states[#[trigger] q[i] as int] == (if i < head {
        VertexState::Processed
    } else {
        VertexState::Discovered
    }) by {
        if i < q.len() - 1 {
            assert(q[i] == q_pre[i]);
            assert(q_pre[i] as int != t as int);
            assert(states[q[i] as int] == st_pre[q_pre[i] as int]);
        } else {
            assert(q[i] == t);
            assert(i >= q.len() - 1 > head);
        }
    }
    assert(q.no_duplicates()) by {
        assert forall|i: int, j: int|
            0 <= i < q.len() && 0 <= j < q.len() && i != j implies q[i] != q[j] by {
            if i < q.len() - 1 && j < q.len() - 1 {
                assert(q_pre[i] != q_pre[j]);
            }
        }
    }
    assert(dp[t as int] == dp_pre[u as int] + 1);
    assert forall|i: int, j: int|
        0 <= i <= j < q.len() implies dp[#[trigger] q[i] as int] <= dp[#[trigger] q[j] as int] by {
        if j < q.len() - 1 {
            assert(q[i] == q_pre[i] && q[j] == q_pre[j]);
        } else if i < q.len() - 1 {
            assert(q[i] == q_pre[i]);
            assert(dp_pre[q_pre[i] as int] <= dp_pre[q_pre[head] as int] + 1);
        }
    }
    assert forall|j: int|
        0 <= j < q.len() implies dp[#[trigger] q[j] as int] <= dp[q[head] as int] + 1 by {
        if j < q.len() - 1 {
            assert(q[j] == q_pre[j]);
        }
    }
    assert forall|i: int, kk: int|
        0 <= i < head && 0 <= kk < g.edges(q[i] as int).len() implies dp[(#[trigger] g.edges(
            q[i] as int,
        )[kk]).target_idx as int] <= dp[q[i] as int] + 1 by {
        assert(q[i] == q_pre[i]);
        let t3: int = g.edges(q_pre[i] as int)[kk].target_idx as int;
        assert(st_pre[t3] != VertexState::Undiscoverd);
        assert(t3 != t as int);
    }
    assert(bfs_core_inv(g, s, states, par, q, dp, head));
}

impl AdjacencyList {
    /// The index of the vertex carrying label `l` (meaningful when
    /// `has_label(l)` holds; unique in a well-formed store).
    pub open spec fn vertex_of_label(self, l: Seq<char>) -> int {
        choose|i: int| 0 <= i < self.n() && #[trigger] self.label_of(i) == l
    }

    /// Scan the edges of `u` (the vertex at queue position `head`),
    /// reporting each edge to the observer and enqueueing undiscovered
    /// targets with `u` as their parent.
    #[verifier::rlimit(100)]
    #[verifier::spinoff_prover]
    fn bfs_scan<O: TraversalObserver>(
        &self,
        Ghost(s): Ghost<int>,
        u: usize,
        head: usize,
        queue: &mut Vec<usize>,
        states: &mut Vec<VertexState>,
        parents: &mut Vec<Option<usize>>,
        obs: &mut O,
        dep: Ghost<Seq<int>>,
    ) -> (rdep: Ghost<Seq<int>>)
        requires
            self.wf(),
            head < old(queue)@.len(),
            u == old(queue)@[head as int],
            bfs_core_inv(*self, s, old(states)@, old(parents)@, old(queue)@, dep@, head as int),
        ensures
            bfs_core_inv(
                *self,
                s,
                final(states)@,
                final(parents)@,
                final(queue)@,
                rdep@,
                head as int,
            ),
            final(queue)@.len() >= old(queue)@.len(),
            forall|i: int| 0 <= i < old(queue)@.len() ==> final(queue)@[i] == old(queue)@[i],
            forall|k: int|
                0 <= k < self.edges(u as int).len() ==> final(states)@[(#[trigger] self.edges(
                    u as int,
                )[k]).target_idx as int] != VertexState::Undiscoverd,
            final(queue)@.len() + count_und(final(states)@) == old(queue)@.len() + count_und(
                old(states)@,
            ),
            final(states)@.len() == self.n(),
            final(parents)@.len() == self.n(),
            rdep@.len() == self.n(),
            forall|i: int|
                0 <= i < final(queue)@.len() ==> (#[trigger] final(queue)@[i] as int) < self.n(),
            forall|v: int|
                0 <= v < self.n() && old(states)@[v] != VertexState::Undiscoverd
                    ==> #[trigger] rdep@[v] == dep@[v],
            forall|k: int|
                0 <= k < self.edges(u as int).len() ==> rdep@[(#[trigger] self.edges(
                    u as int,
                )[k]).target_idx as int] <= rdep@[u as int] + 1,
    {
        let ghost mut dp: Seq<int> = dep@;
        let ghost gu = u as int;
        proof {
            reveal(bfs_core_inv);
        }
        let deg = self.vertices[u].edges.len();
        let mut k: usize = 0;
        while k < deg
            invariant
                self.wf(),
                gu == u as int,
                0 <= gu < self.n(),
                deg == self.edges(gu).len(),
                k <= deg,
                head < queue@.len(),
                u == queue@[head as int],
                bfs_core_inv(*self, s, states@, parents@, queue@, dp, head as int),
                states@.len() == self.n(),
                parents@.len() == self.n(),
                dp.len() == self.n(),
                old(states)@.len() == self.n(),
                dep@.len() == self.n(),
                forall|v: int|
                    0 <= v < self.n() && old(states)@[v] != VertexState::Undiscoverd
                        ==> #[trigger] states@[v] == old(states)@[v],
                forall|i: int| 0 <= i < queue@.len() ==> (#[trigger] queue@[i] as int) < self.n(),
                queue@.len() >= old(queue)@.len(),
                forall|i: int| 0 <= i < old(queue)@.len() ==> queue@[i] == old(queue)@[i],
                forall|kk: int|
                    0 <= kk < k ==> states@[(#[trigger] self.edges(gu)[kk]).target_idx as int]
                        != VertexState::Undiscoverd,
                queue@.len() + count_und(states@) == old(queue)@.len() + count_und(old(states)@),
                forall|v: int|
                    0 <= v < self.n() && old(states)@[v] != VertexState::Undiscoverd
                        ==> #[trigger] dp[v] == dep@[v],
                dp[gu] == dep@[gu],
                forall|kk: int|
                    0 <= kk < k ==> dp[(#[trigger] self.edges(gu)[kk]).target_idx as int] <= dp[gu]
                        + 1,
            decreases deg - k,
        {
            let e_target: usize = self.vertices[u].edges[k].target_idx;
            let e_weight: i32 = self.vertices[u].edges[k].weight;
            let e = Edge { target_idx: e_target, weight: e_weight };
            obs.on_edge(&e);
            proof {
                assert(self.edges(gu)[k as int].target_idx == e_target);
            }
            if states[e_target] == VertexState::Undiscoverd {
                let ghost par_pre = parents@;
                let ghost q_pre = queue@;
                let ghost st_pre = states@;
                let ghost dp_pre = dp;
                proof {
                    reveal(bfs_core_inv);
                    lemma_count_und_update(states@, e_target as int, VertexState::Discovered);
                    assert(self.edge_to(gu, e_target as int));
                    assert(states@[gu] != VertexState::Undiscoverd);
                    self.lemma_reaches_step(s, gu, e_target as int);
                    assert(self.dist_at_most(s, gu, dp[gu]));
                    self.lemma_dist_at_most_step(s, gu, e_target as int, dp[gu]);
                    dp = dp.update(e_target as int, dp[gu] + 1);
                }
                states[e_target] = VertexState::Discovered;
                parents[e_target] = Option::Some(u);
                queue.push(e_target);
                proof {
                    reveal(bfs_core_inv);
                    lemma_bfs_discover(
                        *self,
                        s,
                        st_pre,
                        par_pre,
                        q_pre,
                        dp_pre,
                        states@,
                        parents@,
                        queue@,
                        dp,
                        head as int,
                        u,
                        e_target,
                    );
                    assert(st_pre[e_target as int] == VertexState::Undiscoverd);
                    assert(st_pre[gu] != VertexState::Undiscoverd);
                    assert(gu != e_target as int);
                    assert(dp[gu] == dp_pre[gu]);
                    assert forall|v: int|
                        0 <= v < self.n() && old(states)@[v]
                            != VertexState::Undiscoverd implies #[trigger] dp[v] == dep@[v] by {
                        assert(st_pre[v] != VertexState::Undiscoverd);
                        assert(v != e_target as int);
                    }
                    assert forall|kk: int|
                        0 <= kk < k + 1 implies dp[(#[trigger] self.edges(
                        gu,
                    )[kk]).target_idx as int] <= dp[gu] + 1 by {
                        let t3: int = self.edges(gu)[kk].target_idx as int;
                        if kk < k {
                            assert(dp_pre[t3] <= dp_pre[gu] + 1);
                        } else {
                            assert(t3 == e_target as int);
                        }
                    }
                }
            } else {
                proof {
                    reveal(bfs_core_inv);
                    assert(states@[e_target as int] != VertexState::Undiscoverd);
                    assert(q_contains(queue@, e_target as int));
                    let j = choose|j: int|
                        0 <= j < queue@.len() && #[trigger] queue@[j] as int == e_target as int;
                    assert(dp[queue@[j] as int] <= dp[queue@[head as int] as int] + 1);
                    assert(dp[e_target as int] <= dp[gu] + 1);
                }
            }
            k = k + 1;
        }
        Ghost(dp)
    }

    /// Breadth-first traversal from the vertex labelled `label`,
    /// driving the observer with enter, edge, and exit callbacks in
    /// first-in-first-out discovery order.
    #[verifier::rlimit(100)]
    #[verifier::spinoff_prover]
    pub fn bfs<O: TraversalObserver>(&self, label: &str, obs: &mut O) -> (r: Result<
        (Ghost<Seq<TraversalEvent>>, Ghost<Seq<Option<usize>>>, Ghost<Seq<int>>),
        TraversalError,
    >)
        requires
            self.wf(),
        ensures
            match r {
                Result::Ok(out) => self.has_label(label@) && bfs_post(
                    *self,
                    self.vertex_of_label(label@),
                    out.0@,
                    out.1@,
                    out.2@,
                ),
                Result::Err(e) => e == TraversalError::UnknownLabel && !self.has_label(label@),
            },
    {
        let s = match self.vertex_by_label(label) {
            Option::Some(i) => i,
            Option::None => {
                return Result::Err(TraversalError::UnknownLabel);
            },
        };
        proof {
            assert(self.has_label(label@));
            assert(self.vertex_of_label(label@) == s as int) by {
                let i = self.vertex_of_label(label@);
                assert(0 <= i < self.n() && self.label_of(i) == label@);
            }
        }
        let ghost gs = s as int;
        let n = self.len();
        let mut states: Vec<VertexState> = make_states(n);
        let mut parents: Vec<Option<usize>> = make_parents(n);
        let ghost mut ev: Seq<TraversalEvent> = Seq::empty();
        states[s] = VertexState::Discovered;
        let mut queue: Vec<usize> = Vec::new();
        queue.push(s);
        let mut head: usize = 0;
        let ghost mut dep: Seq<int> = Seq::new(n as nat, |i: int| 0);
        proof {
            reveal(bfs_core_inv);
            self.lemma_reaches_refl(gs);
            self.lemma_dist_at_most_refl(gs);
            assert forall|v: int|
                0 <= v < self.n() && states@[v] != VertexState::Undiscoverd implies q_contains(
                queue@,
                v,
            ) && self.dist_at_most(gs, v, dep[v]) by {
                assert(v == gs);
                assert(queue@[0] as int == v);
            }
            assert(bfs_core_inv(*self, gs, states@, parents@, queue@, dep, 0));
        }
        while head < queue.len()
            invariant
                self.wf(),
                gs == s as int,
                bfs_core_inv(*self, gs, states@, parents@, queue@, dep, head as int),
                states@.len() == self.n(),
                parents@.len() == self.n(),
                forall|i: int| 0 <= i < queue@.len() ==> (#[trigger] queue@[i] as int) < self.n(),
                ev.len() == 2 * head,
                forall|i: int|
                    0 <= i < head ==> ev[2 * i] == TraversalEvent::Enter(
                        #[trigger] queue@[i] as int,
                    ) && ev[2 * i + 1] == TraversalEvent::Exit(queue@[i] as int),
            decreases queue@.len() - head + count_und(states@),
        {
            proof {
                lemma_count_und_nonneg(states@);
            }
            let u = queue[head];
            let ghost gu = u as int;
            let v_enter = TraversalVert {
                data: &self.vertices[u],
                g: self,
                parents: &parents,
                states: &states,
            };
            proof {
                reveal(bfs_core_inv);
                assert forall|v: int|
                    0 <= v < self.n() implies (#[trigger] parents@[v] matches Option::Some(p)
                    ==> (p as int) < self.n()) by {
                    if states@[v] == VertexState::Undiscoverd || v == gs {
                        assert(parents@[v] is None);
                    }
                }
                assert(v_enter.consistent());
            }
            obs.on_enter(v_enter);
            proof {
                ev = ev.push(TraversalEvent::Enter(gu));
            }
            let ghost q_mid = queue@;
            let ghost dep_mid = dep;
            let rdep = self.bfs_scan(
                Ghost(gs),
                u,
                head,
                &mut queue,
                &mut states,
                &mut parents,
                obs,
                Ghost(dep),
            );
            proof {
                dep = rdep@;
            }
            let v_exit = TraversalVert {
                data: &self.vertices[u],
                g: self,
                parents: &parents,
                states: &states,
            };
            proof {
                reveal(bfs_core_inv);
                assert forall|v: int|
                    0 <= v < self.n() implies (#[trigger] parents@[v] matches Option::Some(p)
                    ==> (p as int) < self.n()) by {
                    if states@[v] == VertexState::Undiscoverd || v == gs {
                        assert(parents@[v] is None);
                    }
                }
                assert(v_exit.consistent());
            }
            obs.on_exit(v_exit);
            let ghost ev_mid = ev;
            proof {
                ev = ev.push(TraversalEvent::Exit(gu));
                lemma_count_und_update(states@, gu, VertexState::Processed);
                assert(ev[2 * head as int] == TraversalEvent::Enter(gu));
                assert(ev[2 * head as int + 1] == TraversalEvent::Exit(gu));
            }
            states[u] = VertexState::Processed;
            let ghost st_post = states@;
            let ghost q_post = queue@;
            proof {
                reveal(bfs_core_inv);
                assert forall|i: int|
                    0 <= i < head + 1 implies ev[2 * i] == TraversalEvent::Enter(
                    #[trigger] q_post[i] as int,
                ) && ev[2 * i + 1] == TraversalEvent::Exit(q_post[i] as int) by {
                    if i < head {
                        assert(ev[2 * i] == ev_mid[2 * i]);
                        assert(ev[2 * i + 1] == ev_mid[2 * i + 1]);
                    } else {
                        assert(q_post[i] == u);
                        assert(ev[2 * i] == TraversalEvent::Enter(gu));
                        assert(ev[2 * i + 1] == TraversalEvent::Exit(gu));
                    }
                }
                assert forall|i: int|
                    0 <= i < q_post.len() implies st_post[#[trigger] q_post[i] as int] == (if i
                    < head + 1 {
                    VertexState::Processed
                } else {
                    VertexState::Discovered
                }) by {
                    if i != head {
                        assert(q_post[i] != q_post[head as int]);
                    }
                }
                assert forall|v: int|
                    0 <= v < self.n() && v != gs && st_post[v]
                    != VertexState::Undiscoverd implies ((#[trigger] parents@[v]) matches
                Option::Some(p) && (p as int) < self.n() && self.edge_to(p as int, v)
                    && st_post[p as int] != VertexState::Undiscoverd) by {}
                if head + 1 < q_post.len() {
                    assert forall|j: int|
                        0 <= j < q_post.len() implies dep[#[trigger] q_post[j] as int] <= dep[
                        q_post[head + 1] as int] + 1 by {
                        assert(dep[q_post[j] as int] <= dep[q_post[head as int] as int] + 1);
                        assert(dep[q_post[head as int] as int] <= dep[q_post[head + 1] as int]);
                    }
                }
                assert forall|i2: int, k2: int|
                    0 <= i2 < head + 1 && 0 <= k2 < self.edges(q_post[i2] as int).len() implies dep[(
                #[trigger] self.edges(q_post[i2] as int)[k2]).target_idx as int] <= dep[
                q_post[i2] as int] + 1 by {
                    if i2 == head {
                        assert(q_post[i2] == u);
                    }
                }
                assert(bfs_core_inv(*self, gs, st_post, parents@, q_post, dep, head + 1));
            }
            head = head + 1;
        }
        proof {
            lemma_bfs_finish(*self, gs, ev, queue@, states@, parents@, dep);
        }
        Result::Ok((Ghost(ev), Ghost(parents@), Ghost(dep)))
    }
}



/// Concatenating logs adds their event counts.
pub proof fn lemma_count_concat(a: Seq<TraversalEvent>, b: Seq<TraversalEvent>, v: int)
    ensures
        count_enters(a + b, v) == count_enters(a, v) + count_enters(b, v),
        count_exits(a + b, v) == count_exits(a, v) + count_exits(b, v),
    decreases b.len(),
{
    if b.len() == 0 {
        assert(a + b =~= a);
    } else {
        lemma_count_concat(a, b.drop_last(), v);
        assert((a + b).drop_last() =~= a + b.drop_last());
        assert((a + b).last() == b.last());
    }
}

/// Number of entries still marked unvisited.
pub open spec fn count_unvis(vis: Seq<bool>) -> int
    decreases vis.len(),
{
    if vis.len() == 0 {
        0
    } else {
        count_unvis(vis.drop_last()) + if vis.last() {
            0
        } else {
            1int
        }
    }
}

pub proof fn lemma_count_unvis_update(s: Seq<bool>, i: int, x: bool)
    requires
        0 <= i < s.len(),
    ensures
        count_unvis(s.update(i, x)) == count_unvis(s) - (if s[i] {
            0
        } else {
            1int
        }) + (if x {
            0
        } else {
            1int
        }),
    decreases s.len(),
{
    let t = s.update(i, x);
    if i == s.len() - 1 {
        assert(t.drop_last() =~= s.drop_last());
        assert(t.last() == x);
    } else {
        assert(t.drop_last() =~= s.drop_last().update(i, x));
        assert(t.last() == s.last());
        lemma_count_unvis_update(s.drop_last(), i, x);
    }
}

pub proof fn lemma_count_unvis_nonneg(s: Seq<bool>)
    ensures
        count_unvis(s) >= 0,
    decreases s.len(),
{
    if s.len() > 0 {
        lemma_count_unvis_nonneg(s.drop_last());
    }
}

/// Which vertices a traversal has touched, as a bitmap.
pub open spec fn visited_of(states: Seq<VertexState>) -> Seq<bool> {
    states.map_values(|st: VertexState| st != VertexState::Undiscoverd)
}

/// Edges still pending in the topmost frame of a traversal stack.
pub open spec fn frame_rem(g: AdjacencyList, stack: Seq<(int, int)>) -> int {
    if stack.len() == 0 {
        0
    } else {
        g.edges(stack.last().0).len() - stack.last().1
    }
}

/// The canonical depth-first run: each stack frame holds a vertex and
/// the position of its next pending edge; every step reports the next
/// edge of the topmost frame (recursing into unvisited targets) or
/// exits the frame's vertex. Returns the final log and bitmap.
pub open spec fn dfs_run(
    g: AdjacencyList,
    stack: Seq<(int, int)>,
    vis: Seq<bool>,
    log: Seq<TraversalEvent>,
) -> (Seq<TraversalEvent>, Seq<bool>)
    decreases count_unvis(vis), stack.len(), frame_rem(g, stack),
        via dfs_run_decreases
{
    if stack.len() == 0 {
        (log, vis)
    } else {
        let u = stack.last().0;
        let k = stack.last().1;
        if !(0 <= u < g.n()) || vis.len() != g.n() || k < 0 {
            dfs_run(g, stack.drop_last(), vis, log)
        } else if k >= g.edges(u).len() {
            dfs_run(g, stack.drop_last(), vis, log.push(TraversalEvent::Exit(u)))
        } else {
            let t = g.edges(u)[k].target_idx as int;
            let log1 = log.push(TraversalEvent::Edge(u, k));
            let stack1 = stack.update(stack.len() - 1, (u, k + 1));
            if 0 <= t < g.n() && !vis[t] {
                dfs_run(g, stack1.push((t, 0)), vis.update(t, true), log1.push(
                    TraversalEvent::Enter(t),
                ))
            } else {
                dfs_run(g, stack1, vis, log1)
            }
        }
    }
}

#[via_fn]
proof fn dfs_run_decreases(
    g: AdjacencyList,
    stack: Seq<(int, int)>,
    vis: Seq<bool>,
    log: Seq<TraversalEvent>,
) {
    lemma_count_unvis_nonneg(vis);
    if stack.len() > 0 {
        let u = stack.last().0;
        let k = stack.last().1;
        if 0 <= u < g.n() && vis.len() == g.n() && 0 <= k < g.edges(u).len() {
            let t = g.edges(u)[k].target_idx as int;
            if 0 <= t < g.n() && !vis[t] {
                lemma_count_unvis_update(vis, t, true);
                lemma_count_unvis_nonneg(vis.update(t, true));
            }
        }
    }
}

/// A run never unmarks a vertex: the unvisited count cannot grow.
pub proof fn lemma_dfs_run_vis_mono(
    g: AdjacencyList,
    stack: Seq<(int, int)>,
    vis: Seq<bool>,
    log: Seq<TraversalEvent>,
)
    ensures
        count_unvis(dfs_run(g, stack, vis, log).1) <= count_unvis(vis),
    decreases count_unvis(vis), stack.len(), frame_rem(g, stack),
{
    lemma_count_unvis_nonneg(vis);
    if stack.len() > 0 {
        let u = stack.last().0;
        let k = stack.last().1;
        if !(0 <= u < g.n()) || vis.len() != g.n() || k < 0 {
            lemma_dfs_run_vis_mono(g, stack.drop_last(), vis, log);
        } else if k >= g.edges(u).len() {
            lemma_dfs_run_vis_mono(
                g,
                stack.drop_last(),
                vis,
                log.push(TraversalEvent::Exit(u)),
            );
        } else {
            let t = g.edges(u)[k].target_idx as int;
            let log1 = log.push(TraversalEvent::Edge(u, k));
            let stack1 = stack.update(stack.len() - 1, (u, k + 1));
            if 0 <= t < g.n() && !vis[t] {
                lemma_count_unvis_update(vis, t, true);
                lemma_count_unvis_nonneg(vis.update(t, true));
                lemma_dfs_run_vis_mono(g, stack1.push((t, 0)), vis.update(t, true), log1.push(
                    TraversalEvent::Enter(t),
                ));
            } else {
                lemma_dfs_run_vis_mono(g, stack1, vis, log1);
            }
        }
    }
}

/// Running a stack with `fr` on top first completes `fr` alone, then
/// continues with the rest from the log and bitmap `fr` left behind.
pub proof fn lemma_dfs_run_split(
    g: AdjacencyList,
    rest: Seq<(int, int)>,
    fr: (int, int),
    vis: Seq<bool>,
    log: Seq<TraversalEvent>,
)
    ensures
        ({
            let p = dfs_run(g, seq![fr], vis, log);
            dfs_run(g, rest.push(fr), vis, log) == dfs_run(g, rest, p.1, p.0)
        }),
    decreases count_unvis(vis), g.edges(fr.0).len() - fr.1,
{
    lemma_count_unvis_nonneg(vis);
    let u = fr.0;
    let k = fr.1;
    let whole = rest.push(fr);
    assert(whole.last() == fr);
    assert(whole.drop_last() =~= rest);
    assert(seq![fr].last() == fr);
    assert(seq![fr].drop_last() =~= Seq::<(int, int)>::empty());
    if !(0 <= u < g.n()) || vis.len() != g.n() || k < 0 {
        assert(dfs_run(g, seq![fr], vis, log) == dfs_run(
            g,
            Seq::<(int, int)>::empty(),
            vis,
            log,
        ));
        assert(dfs_run(g, seq![fr], vis, log) == (log, vis));
        assert(dfs_run(g, whole, vis, log) == dfs_run(g, rest, vis, log));
    } else if k >= g.edges(u).len() {
        assert(dfs_run(g, seq![fr], vis, log) == dfs_run(
            g,
            Seq::<(int, int)>::empty(),
            vis,
            log.push(TraversalEvent::Exit(u)),
        ));
        assert(dfs_run(g, seq![fr], vis, log) == (log.push(TraversalEvent::Exit(u)), vis));
        assert(dfs_run(g, whole, vis, log) == dfs_run(g, rest, vis, log.push(
            TraversalEvent::Exit(u),
        )));
    } else {
        let t = g.edges(u)[k].target_idx as int;
        let log1 = log.push(TraversalEvent::Edge(u, k));
        let fr1 = (u, k + 1);
        assert(whole.update(whole.len() - 1, fr1) =~= rest.push(fr1));
        assert(seq![fr].update(0, fr1) =~= seq![fr1]);
        if 0 <= t < g.n() && !vis[t] {
            let vis1 = vis.update(t, true);
            let log2 = log1.push(TraversalEvent::Enter(t));
            lemma_count_unvis_update(vis, t, true);
            lemma_count_unvis_nonneg(vis1);
            lemma_dfs_run_split(g, rest.push(fr1), (t, 0), vis1, log2);
            let q = dfs_run(g, seq![(t, 0)], vis1, log2);
            lemma_dfs_run_vis_mono(g, seq![(t, 0)], vis1, log2);
            lemma_count_unvis_nonneg(q.1);
            lemma_dfs_run_split(g, rest, fr1, q.1, q.0);
            lemma_dfs_run_split(g, seq![fr1], (t, 0), vis1, log2);
            assert(seq![fr1].push((t, 0)) =~= seq![fr1, (t, 0)]);
            assert(dfs_run(g, seq![fr], vis, log) == dfs_run(g, seq![fr1, (t, 0)], vis1, log2));
        } else {
            lemma_dfs_run_split(g, rest, fr1, vis, log1);
        }
    }
}

/// The whole event log a depth-first traversal from `s` produces:
/// enter `s`, then the canonical run of its frame.
pub open spec fn dfs_canonical_log(g: AdjacencyList, s: int) -> Seq<TraversalEvent> {
    dfs_run(
        g,
        seq![(s, 0int)],
        Seq::new(g.n() as nat, |i: int| false).update(s, true),
        seq![TraversalEvent::Enter(s)],
    ).0
}

/// What a depth-first traversal from vertex `s` guarantees: one
/// enter/exit pair per reachable vertex, none for the rest, parent
/// links along stored edges, and the whole log bracketed by the start
/// vertex's enter and exit.
pub open spec fn dfs_post(
    g: AdjacencyList,
    s: int,
    ev: Seq<TraversalEvent>,
    par: Seq<Option<usize>>,
) -> bool {
    &&& ev == dfs_canonical_log(g, s)
    &&& par.len() == g.n()
    &&& (forall|v: int|
        0 <= v < g.n() ==> (g.reaches(s, v) <==> #[trigger] count_enters(ev, v) == 1))
    &&& (forall|v: int| 0 <= v < g.n() ==> #[trigger] count_exits(ev, v) == count_enters(ev, v))
    &&& (forall|v: int|
        0 <= v < g.n() && !g.reaches(s, v) ==> #[trigger] count_enters(ev, v) == 0
            && #[trigger] par[v] is None)
    &&& par[s] is None
    &&& (forall|v: int|
        0 <= v < g.n() && v != s && g.reaches(s, v) ==> ((#[trigger] par[v]) matches Option::Some(
            p,
        ) && (p as int) < g.n() && g.edge_to(p as int, v) && g.reaches(s, p as int)))
    &&& ev.len() >= 2
    &&& ev[0] == TraversalEvent::Enter(s)
    &&& ev.last() == TraversalEvent::Exit(s)
}

impl AdjacencyList {
    /// Recursive depth-first visit of `u`: mark it discovered, scan its
    /// edges in stored order, recurse into undiscovered targets, mark
    /// it processed on the way out. The returned log extends the given
    /// one with an `Enter(u) .. Exit(u)` block holding one enter/exit
    /// pair per newly visited vertex.
    #[verifier::rlimit(100)]
    #[verifier::spinoff_prover]
    fn do_dfs<O: TraversalObserver>(
        &self,
        u: usize,
        states: &mut Vec<VertexState>,
        parents: &mut Vec<Option<usize>>,
        obs: &mut O,
        ev: Ghost<Seq<TraversalEvent>>,
    ) -> (r: Ghost<Seq<TraversalEvent>>)
        requires
            self.wf(),
            (u as int) < self.n(),
            old(states)@.len() == self.n(),
            old(parents)@.len() == self.n(),
            old(states)@[u as int] == VertexState::Undiscoverd,
            forall|v: int|
                0 <= v < self.n() ==> (#[trigger] old(parents)@[v] matches Option::Some(p) ==> (
                p as int) < self.n()),
        ensures
            ({
                let n = self.n();
                let s0 = old(states)@;
                let s1 = final(states)@;
                let p0 = old(parents)@;
                let p1 = final(parents)@;
                let delta = r@.skip(ev@.len() as int);
                &&& s1.len() == n
                &&& p1.len() == n
                &&& (forall|v: int|
                    0 <= v < n ==> (#[trigger] p1[v] matches Option::Some(p) ==> (p as int) < n))
                &&& r@.len() >= ev@.len() + 2
                &&& r@.subrange(0, ev@.len() as int) == ev@
                &&& r@ == dfs_run(
                    *self,
                    seq![(u as int, 0int)],
                    visited_of(s0).update(u as int, true),
                    ev@.push(TraversalEvent::Enter(u as int)),
                ).0
                &&& visited_of(s1) == dfs_run(
                    *self,
                    seq![(u as int, 0int)],
                    visited_of(s0).update(u as int, true),
                    ev@.push(TraversalEvent::Enter(u as int)),
                ).1
                &&& (forall|v: int|
                    0 <= v < n && s0[v] != VertexState::Undiscoverd ==> #[trigger] s1[v] == s0[v])
                &&& (forall|v: int|
                    0 <= v < n && s0[v] != VertexState::Undiscoverd ==> #[trigger] p1[v] == p0[v])
                &&& (forall|v: int|
                    0 <= v < n && s0[v] == VertexState::Undiscoverd && s1[v]
                        == VertexState::Undiscoverd ==> #[trigger] p1[v] == p0[v])
                &&& p1[u as int] == p0[u as int]
                &&& s1[u as int] == VertexState::Processed
                &&& (forall|v: int|
                    0 <= v < n && s0[v] == VertexState::Undiscoverd && #[trigger] s1[v]
                        != VertexState::Undiscoverd ==> s1[v] == VertexState::Processed)
                &&& (forall|v: int|
                    0 <= v < n && s0[v] == VertexState::Undiscoverd && #[trigger] s1[v]
                        != VertexState::Undiscoverd ==> self.reaches(u as int, v))
                &&& (forall|v: int|
                    0 <= v < n && v != u as int && s0[v] == VertexState::Undiscoverd
                        && #[trigger] s1[v] != VertexState::Undiscoverd ==> ((#[trigger] p1[v])
                        matches Option::Some(p) && (p as int) < n && self.edge_to(p as int, v)
                        && s0[p as int] == VertexState::Undiscoverd && s1[p as int]
                        != VertexState::Undiscoverd))
                &&& (forall|v: int, k: int|
                    0 <= v < n && s0[v] == VertexState::Undiscoverd && s1[v]
                        != VertexState::Undiscoverd && 0 <= k < self.edges(v).len() ==> s1[(
                    #[trigger] self.edges(v)[k]).target_idx as int] != VertexState::Undiscoverd)
                &&& (forall|v: int|
                    #![trigger count_enters(delta, v)]
                    #![trigger count_exits(delta, v)]
                    (count_enters(delta, v) == (if 0 <= v < n && s0[v] == VertexState::Undiscoverd
                        && s1[v] != VertexState::Undiscoverd {
                        1int
                    } else {
                        0
                    })) && (count_exits(delta, v) == count_enters(delta, v)))
                &&& delta[0] == TraversalEvent::Enter(u as int)
                &&& delta.last() == TraversalEvent::Exit(u as int)
                &&& count_und(s1) < count_und(s0)
            }),
        decreases count_und(old(states)@),
    {
        let ghost s0 = states@;
        let ghost p0 = parents@;
        proof {
            lemma_count_und_update(states@, u as int, VertexState::Discovered);
        }
        states[u] = VertexState::Discovered;
        let ghost mut log = ev@;
        let v_enter = TraversalVert {
            data: &self.vertices[u],
            g: self,
            parents: &parents,
            states: &states,
        };
        proof {
            assert(v_enter.consistent());
        }
        obs.on_enter(v_enter);
        proof {
            log = log.push(TraversalEvent::Enter(u as int));
            assert(log.subrange(0, ev@.len() as int) =~= ev@);
            self.lemma_reaches_refl(u as int);
            assert(visited_of(states@) =~= visited_of(s0).update(u as int, true));
            assert forall|v: int|
                #![trigger count_enters(log.skip(ev@.len() as int), v)]
                #![trigger count_exits(log.skip(ev@.len() as int), v)]
                (count_enters(log.skip(ev@.len() as int), v) == (if v == u as int {
                    1int
                } else {
                    0
                })) && count_exits(log.skip(ev@.len() as int), v) == 0 by {
                assert(log.skip(ev@.len() as int) =~= Seq::<TraversalEvent>::empty().push(
                    TraversalEvent::Enter(u as int),
                ));
                lemma_count_push(Seq::<TraversalEvent>::empty(), TraversalEvent::Enter(u as int), v);
            }
        }
        let ghost vb_enter = visited_of(states@);
        let ghost log_enter = log;
        let deg = self.vertices[u].edges.len();
        let mut k: usize = 0;
        while k < deg
            invariant
                self.wf(),
                (u as int) < self.n(),
                vb_enter == visited_of(s0).update(u as int, true),
                log_enter == ev@.push(TraversalEvent::Enter(u as int)),
                dfs_run(*self, seq![(u as int, k as int)], visited_of(states@), log) == dfs_run(
                    *self,
                    seq![(u as int, 0int)],
                    vb_enter,
                    log_enter,
                ),
                deg == self.edges(u as int).len(),
                k <= deg,
                states@.len() == self.n(),
                parents@.len() == self.n(),
                s0 == old(states)@,
                p0 == old(parents)@,
                s0.len() == self.n(),
                p0.len() == self.n(),
                s0[u as int] == VertexState::Undiscoverd,
                states@[u as int] == VertexState::Discovered,
                parents@[u as int] == p0[u as int],
                forall|v: int|
                    0 <= v < self.n() ==> (#[trigger] parents@[v] matches Option::Some(p) ==> (
                    p as int) < self.n()),
                forall|v: int|
                    0 <= v < self.n() && s0[v] != VertexState::Undiscoverd ==> #[trigger] states@[v]
                        == s0[v],
                forall|v: int|
                    0 <= v < self.n() && s0[v] != VertexState::Undiscoverd ==> #[trigger] parents@[v]
                        == p0[v],
                forall|v: int|
                    0 <= v < self.n() && s0[v] == VertexState::Undiscoverd && states@[v]
                        == VertexState::Undiscoverd ==> #[trigger] parents@[v] == p0[v],
                forall|v: int|
                    0 <= v < self.n() && v != u as int && s0[v] == VertexState::Undiscoverd
                        && #[trigger] states@[v] != VertexState::Undiscoverd ==> states@[v]
                        == VertexState::Processed,
                forall|v: int|
                    0 <= v < self.n() && s0[v] == VertexState::Undiscoverd && #[trigger] states@[v]
                        != VertexState::Undiscoverd ==> self.reaches(u as int, v),
                forall|v: int|
                    0 <= v < self.n() && v != u as int && s0[v] == VertexState::Undiscoverd
                        && #[trigger] states@[v] != VertexState::Undiscoverd ==> ((
                    #[trigger] parents@[v]) matches Option::Some(p) && (p as int) < self.n()
                        && self.edge_to(p as int, v) && s0[p as int] == VertexState::Undiscoverd
                        && states@[p as int] != VertexState::Undiscoverd),
                forall|v: int, kk: int|
                    0 <= v < self.n() && v != u as int && s0[v] == VertexState::Undiscoverd
                        && states@[v] != VertexState::Undiscoverd && 0 <= kk < self.edges(
                        v,
                    ).len() ==> states@[(#[trigger] self.edges(v)[kk]).target_idx as int]
                        != VertexState::Undiscoverd,
                forall|kk: int|
                    0 <= kk < k ==> states@[(#[trigger] self.edges(u as int)[kk]).target_idx as int]
                        != VertexState::Undiscoverd,
                log.len() >= ev@.len() + 1,
                log.subrange(0, ev@.len() as int) == ev@,
                forall|v: int|
                    #![trigger count_enters(log.skip(ev@.len() as int), v)]
                    #![trigger count_exits(log.skip(ev@.len() as int), v)]
                    (count_enters(log.skip(ev@.len() as int), v) == (if 0 <= v < self.n() && s0[v]
                        == VertexState::Undiscoverd && states@[v] != VertexState::Undiscoverd {
                        1int
                    } else {
                        0
                    })) && (count_exits(log.skip(ev@.len() as int), v) == (if 0 <= v < self.n()
                        && v != u as int && s0[v] == VertexState::Undiscoverd && states@[v]
                        != VertexState::Undiscoverd {
                        1int
                    } else {
                        0
                    })),
                log.skip(ev@.len() as int)[0] == TraversalEvent::Enter(u as int),
                count_und(states@) <= count_und(s0) - 1,
            decreases deg - k,
        {
            let e_target: usize = self.vertices[u].edges[k].target_idx;
            let e_weight: i32 = self.vertices[u].edges[k].weight;
            let e = Edge { target_idx: e_target, weight: e_weight };
            obs.on_edge(&e);
            let ghost log_pre_edge = log;
            let ghost vb_pre = visited_of(states@);
            proof {
                assert(self.edges(u as int)[k as int].target_idx == e_target);
                assert((e_target as int) < self.n());
                log = log.push(TraversalEvent::Edge(u as int, k as int));
                assert(log.subrange(0, ev@.len() as int) =~= log_pre_edge.subrange(
                    0,
                    ev@.len() as int,
                ));
                assert(log.skip(ev@.len() as int) =~= log_pre_edge.skip(ev@.len() as int).push(
                    TraversalEvent::Edge(u as int, k as int),
                ));
                assert forall|v: int|
                    #![trigger count_enters(log.skip(ev@.len() as int), v)]
                    #![trigger count_exits(log.skip(ev@.len() as int), v)]
                    (count_enters(log.skip(ev@.len() as int), v) == count_enters(
                        log_pre_edge.skip(ev@.len() as int),
                        v,
                    )) && (count_exits(log.skip(ev@.len() as int), v) == count_exits(
                        log_pre_edge.skip(ev@.len() as int),
                        v,
                    )) by {
                    lemma_count_push(
                        log_pre_edge.skip(ev@.len() as int),
                        TraversalEvent::Edge(u as int, k as int),
                        v,
                    );
                }
                assert(seq![(u as int, k as int)].update(0, (u as int, k as int + 1)) =~= seq![
                    (u as int, k as int + 1),
                ]);
                assert(vb_pre.len() == self.n());
            }
            if states[e_target] == VertexState::Undiscoverd {
                parents[e_target] = Option::Some(u);
                let ghost st_mid = states@;
                let ghost pr_mid = parents@;
                let ghost log_mid = log;
                proof {
                    lemma_count_und_nonneg(states@);
                }
                let r2 = self.do_dfs(e_target, states, parents, obs, Ghost(log));
                proof {
                    log = r2@;
                    let sub = log_mid.skip(ev@.len() as int);
                    let dsub = log.skip(log_mid.len() as int);
                    assert(log.subrange(0, log_mid.len() as int) == log_mid);
                    assert(log.subrange(0, ev@.len() as int) =~= log_mid.subrange(
                        0,
                        ev@.len() as int,
                    ));
                    assert(log.skip(ev@.len() as int) =~= sub + dsub);
                    assert(self.edge_to(u as int, e_target as int));
                    self.lemma_reaches_step(u as int, u as int, e_target as int);
                    assert forall|v: int|
                        0 <= v < self.n() && st_mid[v] == VertexState::Undiscoverd
                            && #[trigger] states@[v]
                            != VertexState::Undiscoverd implies self.reaches(u as int, v) by {
                        assert(self.reaches(e_target as int, v));
                        self.lemma_reaches_trans(u as int, e_target as int, v);
                    }
                    assert(parents@[e_target as int] == Option::Some(u));
                    assert forall|v: int|
                        #![trigger count_enters(log.skip(ev@.len() as int), v)]
                        #![trigger count_exits(log.skip(ev@.len() as int), v)]
                        (count_enters(log.skip(ev@.len() as int), v) == count_enters(sub, v)
                            + count_enters(dsub, v)) && (count_exits(log.skip(ev@.len() as int), v)
                            == count_exits(sub, v) + count_exits(dsub, v)) by {
                        lemma_count_concat(sub, dsub, v);
                    }
                    // canonical step: report the edge, enter the fresh
                    // target, run its frame, then resume this frame
                    assert(visited_of(st_mid) == vb_pre);
                    assert(vb_pre[e_target as int] == false);
                    assert(dfs_run(*self, seq![(u as int, k as int)], vb_pre, log_pre_edge)
                        == dfs_run(
                        *self,
                        seq![(u as int, k as int + 1)].push((e_target as int, 0int)),
                        vb_pre.update(e_target as int, true),
                        log_mid.push(TraversalEvent::Enter(e_target as int)),
                    ));
                    lemma_dfs_run_split(
                        *self,
                        seq![(u as int, k as int + 1)],
                        (e_target as int, 0int),
                        vb_pre.update(e_target as int, true),
                        log_mid.push(TraversalEvent::Enter(e_target as int)),
                    );
                    assert(visited_of(st_mid).update(e_target as int, true) == vb_pre.update(
                        e_target as int,
                        true,
                    ));
                    assert(dfs_run(
                        *self,
                        seq![(e_target as int, 0int)],
                        vb_pre.update(e_target as int, true),
                        log_mid.push(TraversalEvent::Enter(e_target as int)),
                    ) == (log, visited_of(states@)));
                    assert(dfs_run(*self, seq![(u as int, k as int + 1)], visited_of(states@), log)
                        == dfs_run(*self, seq![(u as int, 0int)], vb_enter, log_enter));
                }
            } else {
                proof {
                    assert(states@[e_target as int] != VertexState::Undiscoverd);
                    assert(vb_pre[e_target as int] == true);
                    assert(dfs_run(*self, seq![(u as int, k as int)], vb_pre, log_pre_edge)
                        == dfs_run(*self, seq![(u as int, k as int + 1)], vb_pre, log));
                    assert(dfs_run(*self, seq![(u as int, k as int + 1)], visited_of(states@), log)
                        == dfs_run(*self, seq![(u as int, 0int)], vb_enter, log_enter));
                }
            }
            k = k + 1;
        }
        let v_exit = TraversalVert {
            data: &self.vertices[u],
            g: self,
            parents: &parents,
            states: &states,
        };
        proof {
            assert(v_exit.consistent());
        }
        obs.on_exit(v_exit);
        let ghost st_pre_exit = states@;
        let ghost log_pre = log;
        proof {
            log = log.push(TraversalEvent::Exit(u as int));
            assert(log.subrange(0, ev@.len() as int) =~= log_pre.subrange(0, ev@.len() as int));
            lemma_count_und_update(states@, u as int, VertexState::Processed);
        }
        states[u] = VertexState::Processed;
        proof {
            // canonical finish: the frame is exhausted, so the run pops
            // it with the closing exit event
            assert(seq![(u as int, deg as int)].last() == (u as int, deg as int));
            assert(seq![(u as int, deg as int)].drop_last() =~= Seq::<(int, int)>::empty());
            assert(visited_of(st_pre_exit).len() == self.n());
            assert(dfs_run(*self, seq![(u as int, deg as int)], visited_of(st_pre_exit), log_pre)
                == dfs_run(*self, Seq::<(int, int)>::empty(), visited_of(st_pre_exit), log));
            assert(dfs_run(*self, seq![(u as int, deg as int)], visited_of(st_pre_exit), log_pre)
                == (log, visited_of(st_pre_exit)));
            assert(visited_of(states@) =~= visited_of(st_pre_exit));
            assert(log == dfs_run(*self, seq![(u as int, 0int)], vb_enter, log_enter).0);
            assert(visited_of(states@) == dfs_run(
                *self,
                seq![(u as int, 0int)],
                vb_enter,
                log_enter,
            ).1);
            let delta = log.skip(ev@.len() as int);
            let dpre = log_pre.skip(ev@.len() as int);
            assert(delta =~= dpre.push(TraversalEvent::Exit(u as int)));
            assert forall|v: int|
                #![trigger count_enters(delta, v)]
                #![trigger count_exits(delta, v)]
                (count_enters(delta, v) == (if 0 <= v < self.n() && s0[v]
                    == VertexState::Undiscoverd && states@[v] != VertexState::Undiscoverd {
                    1int
                } else {
                    0
                })) && (count_exits(delta, v) == count_enters(delta, v)) by {
                lemma_count_push(dpre, TraversalEvent::Exit(u as int), v);
            }
            assert(delta[0] == TraversalEvent::Enter(u as int));
            assert(delta.last() == TraversalEvent::Exit(u as int));
        }
        Ghost(log)
    }

    /// Depth-first traversal from the vertex labelled `label`, driving
    /// the observer with enter, edge, and exit callbacks in recursive
    /// visiting order over the stored edge lists.
    #[verifier::rlimit(100)]
    #[verifier::spinoff_prover]
    pub fn dfs<O: TraversalObserver>(&self, label: &str, obs: &mut O) -> (r: Result<
        (Ghost<Seq<TraversalEvent>>, Ghost<Seq<Option<usize>>>),
        TraversalError,
    >)
        requires
            self.wf(),
        ensures
            match r {
                Result::Ok(out) => self.has_label(label@) && dfs_post(
                    *self,
                    self.vertex_of_label(label@),
                    out.0@,
                    out.1@,
                ),
                Result::Err(e) => e == TraversalError::UnknownLabel && !self.has_label(label@),
            },
    {
        let s = match self.vertex_by_label(label) {
            Option::Some(i) => i,
            Option::None => {
                return Result::Err(TraversalError::UnknownLabel);
            },
        };
        proof {
            assert(self.has_label(label@));
            assert(self.vertex_of_label(label@) == s as int) by {
                let i = self.vertex_of_label(label@);
                assert(0 <= i < self.n() && self.label_of(i) == label@);
            }
        }
        let ghost gs = s as int;
        let n = self.len();
        let mut states: Vec<VertexState> = make_states(n);
        let mut parents: Vec<Option<usize>> = make_parents(n);
        let ghost st_init = states@;
        let r = self.do_dfs(s, &mut states, &mut parents, obs, Ghost(Seq::<
            TraversalEvent,
        >::empty()));
        proof {
            let ev = r@;
            assert(ev.skip(0) =~= ev);
            assert(visited_of(st_init).update(gs, true) =~= Seq::new(
                self.n() as nat,
                |i: int| false,
            ).update(gs, true));
            assert(Seq::<TraversalEvent>::empty().push(TraversalEvent::Enter(gs)) =~= seq![
                TraversalEvent::Enter(gs),
            ]);
            assert(ev == dfs_canonical_log(*self, gs));
            let vis = Set::new(
                |v: int| 0 <= v < self.n() && states@[v] != VertexState::Undiscoverd,
            );
            assert forall|v: int| 0 <= v < self.n() implies (self.reaches(gs, v) <==> states@[v]
                != VertexState::Undiscoverd) by {
                if self.reaches(gs, v) {
                    assert forall|u2: int, k2: int|
                        vis.contains(u2) && 0 <= u2 < self.n() && 0 <= k2 < self.edges(
                            u2,
                        ).len() implies vis.contains(
                        (#[trigger] self.edges(u2)[k2]).target_idx as int,
                    ) by {
                        assert(states@[(self.edges(u2)[k2]).target_idx as int]
                            != VertexState::Undiscoverd);
                        assert(((self.edges(u2)[k2]).target_idx as int) < self.n());
                    }
                    self.lemma_reaches_in_closed_set(gs, v, vis);
                }
            }
            assert(dfs_post(*self, gs, ev, parents@));
        }
        Result::Ok((r, Ghost(parents@)))
    }
}

} // verus!
