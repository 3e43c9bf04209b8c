//! The combined graph: nodes with sequences, a duplicate-free edge set, and
//! named paths. Nodes are kept sorted by id, edges sorted by their ordered
//! oriented endpoints, and paths sorted by name, so that serialization is a
//! plain left-to-right rendering.

use vstd::prelude::*;

use crate::bytes::{lex_lt, lex_leq, lemma_lex_trichotomy, bytes_lt};

verus! {

/// One oriented traversal of a node: the node's id and its strand.
#[derive(Clone, Copy, PartialEq, Eq, Structural, Debug)]
pub struct Step {
    pub id: u64,
    pub reverse: bool,
}

/// An ordered pair of oriented steps; the combined graph keeps at most one
/// edge per distinct pair.
#[derive(Clone, Copy, PartialEq, Eq, Structural, Debug)]
pub struct GraphEdge {
    pub from: Step,
    pub to: Step,
}

/// A node of the combined graph.
#[derive(Clone, Debug)]
pub struct GraphNode {
    pub id: u64,
    pub seq: Vec<u8>,
}

/// A named path of the combined graph.
#[derive(Clone, Debug)]
pub struct GraphPath {
    pub name: Vec<u8>,
    pub steps: Vec<Step>,
}

/// Mathematical image of a node.
pub struct NodeV {
    pub id: u64,
    pub seq: Seq<u8>,
}

/// Mathematical image of a path.
pub struct PathV {
    pub name: Seq<u8>,
    pub steps: Seq<Step>,
}

/// Mathematical image of the combined graph.
pub struct GraphV {
    pub nodes: Seq<NodeV>,
    pub edges: Seq<GraphEdge>,
    pub paths: Seq<PathV>,
}

pub open spec fn node_v(n: GraphNode) -> NodeV {
    NodeV { id: n.id, seq: n.seq@ }
}

pub open spec fn nodes_v(s: Seq<GraphNode>) -> Seq<NodeV> {
    s.map_values(|n: GraphNode| node_v(n))
}

pub open spec fn path_v(p: GraphPath) -> PathV {
    PathV { name: p.name@, steps: p.steps@ }
}

pub open spec fn paths_v(s: Seq<GraphPath>) -> Seq<PathV> {
    s.map_values(|p: GraphPath| path_v(p))
}

/// The combined graph that accumulates every block's content and the
/// reconciled paths.
pub struct CombinedGraph {
    pub nodes: Vec<GraphNode>,
    pub edges: Vec<GraphEdge>,
    pub paths: Vec<GraphPath>,
}

impl View for CombinedGraph {
    type V = GraphV;

    open spec fn view(&self) -> GraphV {
        GraphV { nodes: nodes_v(self.nodes@), edges: self.edges@, paths: paths_v(self.paths@) }
    }
}

/// Order on edges used to keep the edge set sorted: by source id, then
/// target id, then the two orientation flags.
pub open spec fn edge_lt(a: GraphEdge, b: GraphEdge) -> bool {
    a.from.id < b.from.id || (a.from.id == b.from.id && (a.to.id < b.to.id || (a.to.id == b.to.id
        && ((!a.from.reverse && b.from.reverse) || (a.from.reverse == b.from.reverse
        && (!a.to.reverse && b.to.reverse))))))
}

pub proof fn lemma_edge_lt_trichotomy(a: GraphEdge, b: GraphEdge)
    ensures
        edge_lt(a, b) || edge_lt(b, a) || a == b,
        edge_lt(a, b) ==> !edge_lt(b, a) && a != b,
{
}

pub proof fn lemma_edge_lt_transitive(a: GraphEdge, b: GraphEdge, c: GraphEdge)
    ensures
        edge_lt(a, b) && edge_lt(b, c) ==> edge_lt(a, c),
{
}

/// Node ids strictly increase along the node list.
pub open spec fn nodes_sorted(s: Seq<NodeV>) -> bool {
    forall|i: int| 0 <= i < s.len() - 1 ==> #[trigger] s[i].id < s[i + 1].id
}

/// Edges strictly increase, which also rules out duplicates.
pub open spec fn edges_sorted(s: Seq<GraphEdge>) -> bool {
    forall|i: int| 0 <= i < s.len() - 1 ==> edge_lt(#[trigger] s[i], s[i + 1])
}

/// Path names are in non-decreasing lexicographic order.
pub open spec fn paths_sorted(s: Seq<PathV>) -> bool {
    forall|i: int| 0 <= i < s.len() - 1 ==> lex_leq(#[trigger] s[i].name, s[i + 1].name)
}

pub open spec fn graph_wf(g: GraphV) -> bool {
    nodes_sorted(g.nodes) && edges_sorted(g.edges) && paths_sorted(g.paths)
}

/// Some node of the list carries the given id.
pub open spec fn has_node_id(s: Seq<NodeV>, id: u64) -> bool {
    exists|i: int| 0 <= i < s.len() && #[trigger] s[i].id == id
}

/// Insertion of a node before every node with a larger id.
pub open spec fn insert_node_v(s: Seq<NodeV>, x: NodeV) -> Seq<NodeV>
    decreases s.len(),
{
    if s.len() > 0 && x.id < s.last().id {
        insert_node_v(s.drop_last(), x).push(s.last())
    } else {
        s.push(x)
    }
}

/// Insertion of an edge at its sorted position, unless it is already there.
pub open spec fn insert_edge_v(s: Seq<GraphEdge>, x: GraphEdge) -> Seq<GraphEdge>
    decreases s.len(),
{
    if s.len() > 0 && edge_lt(x, s.last()) {
        insert_edge_v(s.drop_last(), x).push(s.last())
    } else if s.len() > 0 && s.last() == x {
        s
    } else {
        s.push(x)
    }
}

/// Insertion of a path behind every path whose name is not larger.
pub open spec fn insert_path_v(s: Seq<PathV>, x: PathV) -> Seq<PathV>
    decreases s.len(),
{
    if s.len() > 0 && lex_lt(x.name, s.last().name) {
        insert_path_v(s.drop_last(), x).push(s.last())
    } else {
        s.push(x)
    }
}

/// The edge set after connecting every adjacent pair of steps, in order.
pub open spec fn add_edges_along(edges: Seq<GraphEdge>, steps: Seq<Step>) -> Seq<GraphEdge>
    decreases steps.len(),
{
    if steps.len() <= 1 {
        edges
    } else {
        insert_edge_v(
            add_edges_along(edges, steps.drop_last()),
            GraphEdge { from: steps[steps.len() - 2], to: steps.last() },
        )
    }
}

/// The graph after materializing one finished path: the path is added under
/// its name and every adjacent step pair is connected by an edge, without
/// creating duplicates.
pub open spec fn build_path(g: GraphV, p: PathV) -> GraphV {
    GraphV {
        nodes: g.nodes,
        edges: add_edges_along(g.edges, p.steps),
        paths: insert_path_v(g.paths, p),
    }
}

proof fn lemma_insert_node_at(s: Seq<NodeV>, x: NodeV, pos: int)
    requires
        0 <= pos <= s.len(),
        forall|j: int| pos <= j < s.len() ==> x.id < #[trigger] s[j].id,
        pos > 0 ==> !(x.id < s[pos - 1].id),
    ensures
        insert_node_v(s, x) == s.insert(pos, x),
    decreases s.len(),
{
    if s.len() > pos {
        assert(x.id < s.last().id);
        lemma_insert_node_at(s.drop_last(), x, pos);
        assert(insert_node_v(s, x) =~= s.insert(pos, x));
    } else {
        assert(s.push(x) =~= s.insert(pos, x));
    }
}

proof fn lemma_has_node_id_push(s: Seq<NodeV>, v: NodeV, y: u64)
    ensures
        has_node_id(s.push(v), y) == (has_node_id(s, y) || v.id == y),
{
    if has_node_id(s, y) {
        let i = choose|i: int| 0 <= i < s.len() && #[trigger] s[i].id == y;
        assert(s.push(v)[i].id == y);
    }
    if v.id == y {
        assert(s.push(v)[s.len() as int].id == y);
    }
    if has_node_id(s.push(v), y) {
        let i = choose|i: int| 0 <= i < s.push(v).len() && #[trigger] s.push(v)[i].id == y;
        if i < s.len() {
            assert(s[i].id == y);
        }
    }
}

/// Inserting a node adds exactly its id to the set of present ids.
pub proof fn lemma_insert_node_has_id(s: Seq<NodeV>, x: NodeV, y: u64)
    ensures
        has_node_id(insert_node_v(s, x), y) == (has_node_id(s, y) || x.id == y),
    decreases s.len(),
{
    if s.len() > 0 && x.id < s.last().id {
        lemma_insert_node_has_id(s.drop_last(), x, y);
        lemma_has_node_id_push(insert_node_v(s.drop_last(), x), s.last(), y);
        assert(s =~= s.drop_last().push(s.last()));
        lemma_has_node_id_push(s.drop_last(), s.last(), y);
    } else {
        lemma_has_node_id_push(s, x, y);
    }
}

/// A node whose id is not below the last one lands at the end.
pub proof fn lemma_insert_node_append(s: Seq<NodeV>, x: NodeV)
    requires
        s.len() > 0 ==> s.last().id <= x.id,
    ensures
        insert_node_v(s, x) == s.push(x),
{
}

proof fn lemma_insert_edge_at(s: Seq<GraphEdge>, x: GraphEdge, pos: int)
    requires
        0 <= pos <= s.len(),
        forall|j: int| pos <= j < s.len() ==> edge_lt(x, #[trigger] s[j]),
        pos > 0 ==> !edge_lt(x, s[pos - 1]),
    ensures
        pos > 0 && s[pos - 1] == x ==> insert_edge_v(s, x) == s,
        !(pos > 0 && s[pos - 1] == x) ==> insert_edge_v(s, x) == s.insert(pos, x),
    decreases s.len(),
{
    if s.len() > pos {
        assert(edge_lt(x, s.last()));
        lemma_edge_lt_trichotomy(x, s.last());
        lemma_insert_edge_at(s.drop_last(), x, pos);
        if pos > 0 && s[pos - 1] == x {
            assert(insert_edge_v(s, x) =~= s);
        } else {
            assert(insert_edge_v(s, x) =~= s.insert(pos, x));
        }
    } else {
        if pos > 0 && s[pos - 1] == x {
            assert(s.last() == x);
        } else {
            if s.len() > 0 {
                lemma_edge_lt_trichotomy(x, s.last());
            }
            assert(s.push(x) =~= s.insert(pos, x));
        }
    }
}

proof fn lemma_insert_path_at(s: Seq<PathV>, x: PathV, pos: int)
    requires
        0 <= pos <= s.len(),
        forall|j: int| pos <= j < s.len() ==> lex_lt(x.name, #[trigger] s[j].name),
        pos > 0 ==> !lex_lt(x.name, s[pos - 1].name),
    ensures
        insert_path_v(s, x) == s.insert(pos, x),
    decreases s.len(),
{
    if s.len() > pos {
        assert(lex_lt(x.name, s.last().name));
        lemma_insert_path_at(s.drop_last(), x, pos);
        assert(insert_path_v(s, x) =~= s.insert(pos, x));
    } else {
        assert(s.push(x) =~= s.insert(pos, x));
    }
}

proof fn lemma_nodes_v_insert(s: Seq<GraphNode>, pos: int, x: GraphNode)
    requires
        0 <= pos <= s.len(),
    ensures
        nodes_v(s.insert(pos, x)) == nodes_v(s).insert(pos, node_v(x)),
{
    assert(nodes_v(s.insert(pos, x)) =~= nodes_v(s).insert(pos, node_v(x)));
}

proof fn lemma_paths_v_insert(s: Seq<GraphPath>, pos: int, x: GraphPath)
    requires
        0 <= pos <= s.len(),
    ensures
        paths_v(s.insert(pos, x)) == paths_v(s).insert(pos, path_v(x)),
{
    assert(paths_v(s.insert(pos, x)) =~= paths_v(s).insert(pos, path_v(x)));
}

/// Compares two edges in the sorted-edge order.
fn edge_before(a: &GraphEdge, b: &GraphEdge) -> (r: bool)
    ensures
        r == edge_lt(*a, *b),
{
    if a.from.id != b.from.id {
        return a.from.id < b.from.id;
    }
    if a.to.id != b.to.id {
        return a.to.id < b.to.id;
    }
    if a.from.reverse != b.from.reverse {
        return !a.from.reverse;
    }
    !a.to.reverse && b.to.reverse
}

fn edge_same(a: &GraphEdge, b: &GraphEdge) -> (r: bool)
    ensures
        r == (*a == *b),
{
    a.from.id == b.from.id && a.from.reverse == b.from.reverse && a.to.id == b.to.id
        && a.to.reverse == b.to.reverse
}

impl CombinedGraph {
    /// A fresh graph with no nodes, edges or paths.
    pub fn new() -> (g: CombinedGraph)
        ensures
            g@.nodes == Seq::<NodeV>::empty(),
            g@.edges == Seq::<GraphEdge>::empty(),
            g@.paths == Seq::<PathV>::empty(),
            graph_wf(g@),
    {
        let g = CombinedGraph { nodes: Vec::new(), edges: Vec::new(), paths: Vec::new() };
        proof {
            assert(g@.nodes =~= Seq::<NodeV>::empty());
            assert(g@.paths =~= Seq::<PathV>::empty());
        }
        g
    }

    /// Number of nodes in the graph; block id translation offsets are read
    /// off this counter.
    pub fn node_count(&self) -> (r: usize)
        ensures
            r == self@.nodes.len(),
    {
        self.nodes.len()
    }

    /// Adds a node under a fresh id, keeping the node list sorted by id.
    pub fn add_node(&mut self, id: u64, seq: Vec<u8>)
        requires
            graph_wf(old(self)@),
            !has_node_id(old(self)@.nodes, id),
        ensures
            graph_wf(final(self)@),
            final(self)@.nodes == insert_node_v(old(self)@.nodes, NodeV { id, seq: seq@ }),
            final(self)@.edges == old(self)@.edges,
            final(self)@.paths == old(self)@.paths,
    {
        let ghost s = self@.nodes;
        let ghost x = NodeV { id, seq: seq@ };
        let mut pos: usize = self.nodes.len();
        while pos > 0 && id < self.nodes[pos - 1].id
            invariant
                0 <= pos <= self.nodes@.len(),
                forall|j: int| pos <= j < self.nodes@.len() ==> id < nodes_v(self.nodes@)[j].id,
            decreases pos,
        {
            pos -= 1;
        }
        proof {
            assert(forall|j: int| 0 <= j < s.len() ==> #[trigger] s[j].id != id);
            if pos > 0 {
                assert(s[pos - 1].id != id);
            }
            lemma_insert_node_at(s, x, pos as int);
            lemma_nodes_v_insert(self.nodes@, pos as int, GraphNode { id, seq });
        }
        let ghost old_nodes = self.nodes@;
        self.nodes.insert(pos, GraphNode { id, seq });
        proof {
            let t = s.insert(pos as int, x);
            assert forall|i: int| 0 <= i < t.len() - 1 implies #[trigger] t[i].id < t[i + 1].id by {
                if i + 1 < pos {
                    assert(t[i] == s[i] && t[i + 1] == s[i + 1]);
                } else if i + 1 == pos {
                    assert(t[i] == s[i] && t[i + 1] == x);
                } else if i == pos {
                    assert(t[i] == x && t[i + 1] == s[i]);
                } else {
                    assert(t[i] == s[i - 1] && t[i + 1] == s[i]);
                }
            }
        }
    }

    /// Whether the graph already holds the edge with exactly these ordered,
    /// oriented endpoints.
    #[verifier::loop_isolation(false)]
    pub fn has_edge(&self, from: Step, to: Step) -> (r: bool)
        ensures
            r == self@.edges.contains(GraphEdge { from, to }),
    {
        let e = GraphEdge { from, to };
        let mut i: usize = 0;
        while i < self.edges.len()
            invariant
                0 <= i <= self.edges@.len(),
                forall|j: int| 0 <= j < i ==> #[trigger] self.edges@[j] != e,
            decreases self.edges@.len() - i,
        {
            let cur = self.edges[i];
            if edge_same(&cur, &e) {
                proof {
                    assert(self.edges@[i as int] == e);
                }
                return true;
            }
            i += 1;
        }
        false
    }

    /// Adds the edge unless an edge with the same ordered oriented endpoints
    /// is already present; the edge list stays sorted and duplicate-free.
    pub fn add_edge(&mut self, from: Step, to: Step)
        requires
            graph_wf(old(self)@),
        ensures
            graph_wf(final(self)@),
            final(self)@.edges == insert_edge_v(old(self)@.edges, GraphEdge { from, to }),
            final(self)@.nodes == old(self)@.nodes,
            final(self)@.paths == old(self)@.paths,
    {
        let x = GraphEdge { from, to };
        let ghost s = self.edges@;
        let mut pos: usize = self.edges.len();
        while pos > 0 && edge_before(&x, &self.edges[pos - 1])
            invariant
                0 <= pos <= self.edges@.len(),
                self.edges@ == s,
                forall|j: int| pos <= j < s.len() ==> edge_lt(x, #[trigger] s[j]),
            decreases pos,
        {
            pos -= 1;
        }
        proof {
            lemma_insert_edge_at(s, x, pos as int);
        }
        if pos > 0 && edge_same(&self.edges[pos - 1], &x) {
            return;
        }
        self.edges.insert(pos, x);
        proof {
            let t = s.insert(pos as int, x);
            if pos > 0 {
                lemma_edge_lt_trichotomy(x, s[pos as int - 1]);
            }
            assert forall|i: int| 0 <= i < t.len() - 1 implies edge_lt(#[trigger] t[i], t[i + 1]) by {
                if i + 1 < pos {
                    assert(t[i] == s[i] && t[i + 1] == s[i + 1]);
                } else if i + 1 == pos {
                    assert(t[i] == s[i] && t[i + 1] == x);
                } else if i == pos {
                    assert(t[i] == x && t[i + 1] == s[i]);
                } else {
                    assert(t[i] == s[i - 1] && t[i + 1] == s[i]);
                }
            }
        }
    }

    /// Adds a finished path, keeping the path list sorted by name.
    pub fn add_path(&mut self, path: GraphPath)
        requires
            graph_wf(old(self)@),
        ensures
            graph_wf(final(self)@),
            final(self)@.paths == insert_path_v(old(self)@.paths, path_v(path)),
            final(self)@.nodes == old(self)@.nodes,
            final(self)@.edges == old(self)@.edges,
    {
        let ghost s = self@.paths;
        let ghost x = path_v(path);
        let mut pos: usize = self.paths.len();
        while pos > 0 && bytes_lt(&path.name, &self.paths[pos - 1].name)
            invariant
                0 <= pos <= self.paths@.len(),
                forall|j: int|
                    pos <= j < self.paths@.len() ==> lex_lt(
                        path.name@,
                        paths_v(self.paths@)[j].name,
                    ),
            decreases pos,
        {
            pos -= 1;
        }
        proof {
            lemma_insert_path_at(s, x, pos as int);
            lemma_paths_v_insert(self.paths@, pos as int, path);
            if pos > 0 {
                lemma_lex_trichotomy(x.name, s[pos as int - 1].name);
            }
        }
        self.paths.insert(pos, path);
        proof {
            let t = s.insert(pos as int, x);
            assert forall|i: int|
                0 <= i < t.len() - 1 implies lex_leq(#[trigger] t[i].name, t[i + 1].name) by {
                if i + 1 < pos {
                    assert(t[i] == s[i] && t[i + 1] == s[i + 1]);
                } else if i + 1 == pos {
                    assert(t[i] == s[i] && t[i + 1] == x);
                } else if i == pos {
                    assert(t[i] == x && t[i + 1] == s[i]);
                } else {
                    assert(t[i] == s[i - 1] && t[i + 1] == s[i]);
                }
            }
        }
    }

    /// Materializes one finished path: appends it under its name and
    /// connects every adjacent step pair with an edge, unless that edge is
    /// already present.
    #[verifier::loop_isolation(false)]
    pub fn add_path_with_edges(&mut self, path: GraphPath)
        requires
            graph_wf(old(self)@),
        ensures
            graph_wf(final(self)@),
            final(self)@ == build_path(old(self)@, path_v(path)),
    {
        let ghost g0 = self@;
        let ghost steps = path.steps@;
        let n = path.steps.len();
        if n > 1 {
            let mut i: usize = 1;
            while i < n
                invariant
                    1 <= i <= n,
                    graph_wf(self@),
                    self@.nodes == g0.nodes,
                    self@.paths == g0.paths,
                    self@.edges == add_edges_along(g0.edges, steps.take(i as int)),
                decreases n - i,
            {
                let prev = path.steps[i - 1];
                let cur = path.steps[i];
                self.add_edge(prev, cur);
                proof {
                    let t = steps.take(i + 1);
                    assert(t.drop_last() =~= steps.take(i as int));
                    assert(t[t.len() - 2] == prev && t.last() == cur);
                }
                i += 1;
            }
            proof {
                assert(steps.take(n as int) =~= steps);
            }
        }
        self.add_path(path);
    }
}

} // verus!

