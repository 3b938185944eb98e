use graphlib::graph::AdjacencyList;
use graphlib::graph::Edge;
use graphlib::graph::parse::ParseError;
use graphlib::graph::traversal::TraversalObserver;
use graphlib::graph::traversal::TraversalVert;
use graphlib::graph::minimum_spanning::PrimError;
use graphlib::graph::minimum_spanning::SpanningTree;
use graphlib::graph::minimum_spanning::VertState;

struct Recorder {
    enters: Vec<String>,
    exits: Vec<String>,
    edges: usize,
    chain_from_last: Vec<String>,
}

impl Recorder {
    fn new() -> Recorder {
        Recorder { enters: Vec::new(), exits: Vec::new(), edges: 0, chain_from_last: Vec::new() }
    }
}

impl TraversalObserver for Recorder {
    fn on_enter(&mut self, v: TraversalVert<'_>) {
        self.enters.push(v.data.label().to_string());
        let mut chain = vec![v.data.label().to_string()];
        let mut cur = v.parent();
        while let Some(p) = cur {
            chain.push(p.data.label().to_string());
            cur = p.parent();
        }
        self.chain_from_last = chain;
    }
    fn on_exit(&mut self, v: TraversalVert<'_>) {
        self.exits.push(v.data.label().to_string());
    }
    fn on_edge(&mut self, _e: &Edge) {
        self.edges += 1;
    }
}

#[test]
fn simple_path_bfs_order() {
    let g = AdjacencyList::load("[]\nA - B\nB - C\n").unwrap();
    let mut rec = Recorder::new();
    g.bfs("A", &mut rec).unwrap();
    assert_eq!(rec.enters, vec!["A", "B", "C"]);
    assert_eq!(rec.exits, vec!["A", "B", "C"]);
}

#[test]
fn cycle_bfs_parent_chain() {
    let g = AdjacencyList::load("[]\nA - B\nB - C\nC - A\n").unwrap();
    let mut rec = Recorder::new();
    g.bfs("A", &mut rec).unwrap();
    assert_eq!(rec.enters, vec!["A", "B", "C"]);
    // parent chain from C is C -> A, a single hop
    assert_eq!(rec.chain_from_last, vec!["C", "A"]);
}

#[test]
fn deduplication() {
    let g = AdjacencyList::load("[]\nA - B\nA - B\n").unwrap();
    assert_eq!(g.len(), 2);
    let a = g.vertex_by_label("A").unwrap();
    let b = g.vertex_by_label("B").unwrap();
    assert_eq!(g.vertex_at(a).degree(), 1);
    assert_eq!(g.vertex_at(b).degree(), 1);
}

#[test]
fn directed_with_bidirected_edge() {
    let g = AdjacencyList::load("[DIRECTED]\nA -> B\nB <-> C\n").unwrap();
    let a = g.vertex_by_label("A").unwrap();
    let b = g.vertex_by_label("B").unwrap();
    let c = g.vertex_by_label("C").unwrap();
    assert_eq!(g.edges_of(a).len(), 1);
    assert_eq!(g.edges_of(a)[0].target_idx, b);
    assert_eq!(g.edges_of(b).len(), 1);
    assert_eq!(g.edges_of(b)[0].target_idx, c);
    assert_eq!(g.edges_of(c).len(), 1);
    assert_eq!(g.edges_of(c)[0].target_idx, b);
}

#[test]
fn weighted_flags_and_negative() {
    let g = AdjacencyList::load("[WEIGHTED]\nA - B ; -1\n").unwrap();
    let f = g.flags();
    assert!(f.weighted);
    assert!(!f.directed);
    assert!(!f.nonnegative);
}

#[test]
fn header_tokens_and_unknown_ignored() {
    let g = AdjacencyList::load("[DIRECTED; FANCY]\nA -> B\n").unwrap();
    assert!(g.flags().directed);
    assert!(!g.flags().weighted);
}

#[test]
fn malformed_edge_line() {
    let r = AdjacencyList::load("[]\nA - B\nA -- B\n");
    assert!(matches!(r, Err(ParseError::MalformedEdge)));
}

#[test]
fn missing_weight() {
    let r = AdjacencyList::load("[WEIGHTED]\nA - B\n");
    assert!(matches!(r, Err(ParseError::MissingWeight)));
}

#[test]
fn empty_input_is_malformed_header() {
    let r = AdjacencyList::load("");
    assert!(matches!(r, Err(ParseError::MalformedHeader)));
}

#[test]
fn unknown_start_label() {
    let g = AdjacencyList::load("[]\nA - B\n").unwrap();
    let mut rec = Recorder::new();
    assert!(g.bfs("Z", &mut rec).is_err());
}

#[test]
fn weight_parsing_and_vertex_accessors() {
    let g = AdjacencyList::load("[WEIGHTED]\nA - B ; 3\nB - C ; 2\n").unwrap();
    assert_eq!(g.len(), 3);
    let a = g.vertex_by_label("A").unwrap();
    let v = g.vertex_at(a);
    assert_eq!(v.idx(), a);
    assert_eq!(v.label(), "A");
    assert_eq!(g.edges_of(a)[0].weight, 3);
    assert!(g.flags().nonnegative);
}

#[test]
fn bfs_edge_events_counted() {
    let g = AdjacencyList::load("[]\nA - B\nB - C\nC - A\n").unwrap();
    let mut rec = Recorder::new();
    g.bfs("A", &mut rec).unwrap();
    // each of the three undirected edges is stored twice and scanned once per direction
    assert_eq!(rec.edges, 6);
}

#[test]
fn dfs_directed_with_bidirected_edge_order() {
    // DFS from A enters A, B, C and exits C, B, A
    let g = AdjacencyList::load("[DIRECTED]\nA -> B\nB <-> C\n").unwrap();
    let mut rec = Recorder::new();
    g.dfs("A", &mut rec).unwrap();
    assert_eq!(rec.enters, vec!["A", "B", "C"]);
    assert_eq!(rec.exits, vec!["C", "B", "A"]);
}

#[test]
fn dfs_unknown_start_label() {
    let g = AdjacencyList::load("[]\nA - B\n").unwrap();
    let mut rec = Recorder::new();
    assert!(g.dfs("Q", &mut rec).is_err());
}

#[test]
fn prim_weighted_triangle() {
    let g = AdjacencyList::load("[WEIGHTED]\nA - B ; 1\nB - C ; 2\nA - C ; 3\n").unwrap();
    let t: Vec<SpanningTree> = g.prim("A").unwrap();
    let a = g.vertex_by_label("A").unwrap();
    let b = g.vertex_by_label("B").unwrap();
    let c = g.vertex_by_label("C").unwrap();
    assert_eq!(t[a].parent_idx, None);
    assert_eq!(t[a].distance, 0);
    assert_eq!(t[b].parent_idx, Some(a));
    assert_eq!(t[b].distance, 1);
    assert_eq!(t[c].parent_idx, Some(b));
    assert_eq!(t[c].distance, 2);
    let total: usize = t.iter().map(|r| r.distance).sum();
    assert_eq!(total, 3);
}

#[test]
fn prim_rejects_negative_weights() {
    let g = AdjacencyList::load("[WEIGHTED]\nA - B ; -1\n").unwrap();
    assert!(matches!(g.prim("A"), Err(PrimError::NegativeWeights)));
}

#[test]
fn prim_rejects_directed_graphs() {
    let g = AdjacencyList::load("[DIRECTED]\nA -> B\n").unwrap();
    assert!(matches!(g.prim("A"), Err(PrimError::DirectedGraph)));
}

#[test]
fn prim_unknown_start_label() {
    let g = AdjacencyList::load("[]\nA - B\n").unwrap();
    assert!(matches!(g.prim("X"), Err(PrimError::UnknownLabel)));
}

#[test]
fn prim_unreachable_vertices_get_no_parent() {
    let g = AdjacencyList::load("[WEIGHTED]\nA - B ; 2\nC - D ; 5\n").unwrap();
    let t = g.prim("A").unwrap();
    let c = g.vertex_by_label("C").unwrap();
    let d = g.vertex_by_label("D").unwrap();
    assert_eq!(t[c].parent_idx, None);
    assert_eq!(t[c].distance, 0);
    assert_eq!(t[d].parent_idx, None);
    assert_eq!(t[d].distance, 0);
}

#[test]
fn prim_vert_state_methods() {
    let mut st = VertState::Undiscovered;
    assert!(!st.is_in_tree());
    let d = st.get_or_insert(7);
    assert_eq!(d, 7);
    assert_eq!(st.unwrap(), 7);
    let d2 = st.get_or_insert(9);
    assert_eq!(d2, 7);
    let mut fin = VertState::InTree(3);
    assert!(fin.is_in_tree());
    assert_eq!(fin.unwrap(), 3);
    assert_eq!(fin.get_or_insert(4), 3);
}

#[test]
fn directed_reverse_bidirected_does_not_duplicate() {
    // the pair (A, B) keeps a single edge even when a later bidirected
    // line names it in reverse
    let g = AdjacencyList::load("[DIRECTED]\nA -> B\nB <-> A\n").unwrap();
    let a = g.vertex_by_label("A").unwrap();
    let b = g.vertex_by_label("B").unwrap();
    assert_eq!(g.edges_of(a).len(), 1);
    assert_eq!(g.edges_of(b).len(), 1);
    assert_eq!(g.edges_of(a)[0].target_idx, b);
    assert_eq!(g.edges_of(b)[0].target_idx, a);
}

#[test]
fn prim_equal_weights_lowest_index_first() {
    // two candidates connect to the root at equal weight; both records
    // carry that weight and the root as parent
    let g = AdjacencyList::load("[WEIGHTED]\nA - B ; 2\nA - C ; 2\nB - C ; 9\n").unwrap();
    let t = g.prim("A").unwrap();
    let a = g.vertex_by_label("A").unwrap();
    let b = g.vertex_by_label("B").unwrap();
    let c = g.vertex_by_label("C").unwrap();
    assert_eq!(t[b].parent_idx, Some(a));
    assert_eq!(t[b].distance, 2);
    assert_eq!(t[c].parent_idx, Some(a));
    assert_eq!(t[c].distance, 2);
}

#[test]
fn dfs_edge_events_counted() {
    // the triangle stores six directed records; depth-first search
    // reports each stored edge of every visited vertex exactly once
    let g = AdjacencyList::load("[]\nA - B\nB - C\nC - A\n").unwrap();
    let mut rec = Recorder::new();
    g.dfs("A", &mut rec).unwrap();
    assert_eq!(rec.edges, 6);
}
