//! Lacing of already-smoothed blocks whose node ids are final: every
//! block's nodes and edges are copied into one graph unchanged, the given
//! paths are laid over them with forward orientation, and every adjacent
//! step pair of a path is connected by an edge, without duplicates.

use vstd::prelude::*;

use crate::graph::{
    Step, GraphEdge, GraphNode, GraphPath, NodeV, PathV, GraphV, CombinedGraph, graph_wf, node_v,
    nodes_v, path_v, insert_node_v, insert_edge_v, has_node_id, lemma_insert_node_has_id,
};
use crate::reconcile::build_paths_upto;
use crate::bytes::sub_bytes;

verus! {

/// One step of a path to lay over the smoothed blocks: which block the
/// node came from, and its final node id.
#[derive(Clone, Copy, PartialEq, Eq, Structural, Debug)]
pub struct LacePathStep {
    pub block_id: usize,
    pub node_id: u64,
}

/// A path to lay over the smoothed blocks, under its full name.
pub struct PathRange {
    pub path_name: Vec<u8>,
    pub steps: Vec<LacePathStep>,
}

/// Mathematical image of a path to lay.
pub struct PathRangeV {
    pub name: Seq<u8>,
    pub steps: Seq<LacePathStep>,
}

pub open spec fn path_range_v(p: PathRange) -> PathRangeV {
    PathRangeV { name: p.path_name@, steps: p.steps@ }
}

pub open spec fn path_ranges_v(s: Seq<PathRange>) -> Seq<PathRangeV> {
    s.map_values(|p: PathRange| path_range_v(p))
}

/// One smoothed block: nodes under their final ids, and edges.
pub struct SmoothedBlock {
    pub nodes: Vec<GraphNode>,
    pub edges: Vec<GraphEdge>,
}

/// Mathematical image of a smoothed block.
pub struct SmoothedBlockV {
    pub nodes: Seq<NodeV>,
    pub edges: Seq<GraphEdge>,
}

pub open spec fn sblock_v(b: SmoothedBlock) -> SmoothedBlockV {
    SmoothedBlockV { nodes: nodes_v(b.nodes@), edges: b.edges@ }
}

pub open spec fn sblocks_v(s: Seq<SmoothedBlock>) -> Seq<SmoothedBlockV> {
    s.map_values(|b: SmoothedBlock| sblock_v(b))
}

/// A lace step becomes a forward traversal of its node.
pub open spec fn lace_step(s: LacePathStep) -> Step {
    Step { id: s.node_id, reverse: false }
}

pub open spec fn lace_steps(ss: Seq<LacePathStep>) -> Seq<Step> {
    ss.map_values(|s: LacePathStep| lace_step(s))
}

/// The path laid for one path range.
pub open spec fn lace_path(p: PathRangeV) -> PathV {
    PathV { name: p.name, steps: lace_steps(p.steps) }
}

/// The node list after inserting the first `k` nodes of one block.
pub open spec fn add_nodes_upto(ns: Seq<NodeV>, xs: Seq<NodeV>, k: int) -> Seq<NodeV>
    decreases k,
{
    if k <= 0 {
        ns
    } else {
        insert_node_v(add_nodes_upto(ns, xs, k - 1), xs[k - 1])
    }
}

/// The node list after inserting the nodes of the first `k` blocks.
pub open spec fn add_block_nodes_upto(ns: Seq<NodeV>, bs: Seq<SmoothedBlockV>, k: int) -> Seq<NodeV>
    decreases k,
{
    if k <= 0 {
        ns
    } else {
        add_nodes_upto(add_block_nodes_upto(ns, bs, k - 1), bs[k - 1].nodes, bs[k - 1].nodes.len() as int)
    }
}

/// The edge list after inserting the first `k` edges of a list.
pub open spec fn add_edge_list_upto(es: Seq<GraphEdge>, xs: Seq<GraphEdge>, k: int) -> Seq<GraphEdge>
    decreases k,
{
    if k <= 0 {
        es
    } else {
        insert_edge_v(add_edge_list_upto(es, xs, k - 1), xs[k - 1])
    }
}

/// The edge list after inserting the edges of the first `k` blocks.
pub open spec fn add_block_edges_upto(
    es: Seq<GraphEdge>,
    bs: Seq<SmoothedBlockV>,
    k: int,
) -> Seq<GraphEdge>
    decreases k,
{
    if k <= 0 {
        es
    } else {
        add_edge_list_upto(
            add_block_edges_upto(es, bs, k - 1),
            bs[k - 1].edges,
            bs[k - 1].edges.len() as int,
        )
    }
}

/// Some node id of the blocks occurs strictly before position `(b, n)` of
/// the block-by-block walk.
pub open spec fn id_before(bs: Seq<SmoothedBlockV>, b: int, n: int, y: u64) -> bool {
    exists|b2: int, n2: int|
        0 <= b2 < bs.len() && 0 <= n2 < bs[b2].nodes.len() && (b2 < b || (b2 == b && n2 < n))
            && (#[trigger] bs[b2].nodes[n2]).id == y
}

/// The blocks' node ids are pairwise distinct.
pub open spec fn distinct_block_ids(bs: Seq<SmoothedBlockV>) -> bool {
    forall|b1: int, n1: int, b2: int, n2: int|
        0 <= b1 < bs.len() && 0 <= n1 < bs[b1].nodes.len() && 0 <= b2 < bs.len() && 0 <= n2
            < bs[b2].nodes.len() && (b1 != b2 || n1 != n2) ==> (#[trigger] bs[b1].nodes[n1]).id != (
        #[trigger] bs[b2].nodes[n2]).id
}

/// Every step of every path range names a node of its block.
pub open spec fn steps_resolve(bs: Seq<SmoothedBlockV>, prs: Seq<PathRangeV>) -> bool {
    forall|p: int, s: int|
        0 <= p < prs.len() && 0 <= s < prs[p].steps.len() ==> (#[trigger] prs[p].steps[s]).block_id
            < bs.len() && has_node_id(bs[prs[p].steps[s].block_id as int].nodes, prs[p].steps[s].node_id)
}

} // verus!

verus! {

/// The graph holding all blocks' nodes and edges, before any path is laid.
pub open spec fn laced_base(bs: Seq<SmoothedBlockV>) -> GraphV {
    GraphV {
        nodes: add_block_nodes_upto(Seq::empty(), bs, bs.len() as int),
        edges: add_block_edges_upto(Seq::empty(), bs, bs.len() as int),
        paths: Seq::empty(),
    }
}

/// The whole laced graph: the base plus one laid path per path range, each
/// with its connecting edges.
pub open spec fn lace_smoothed_spec(bs: Seq<SmoothedBlockV>, prs: Seq<PathRangeV>) -> GraphV {
    let ps = prs.map_values(|p: PathRangeV| lace_path(p));
    build_paths_upto(laced_base(bs), ps, ps.len() as int)
}

/// Copies the blocks' nodes and edges into one graph under their final
/// ids, lays each given path over them with forward orientation, and
/// connects every adjacent step pair with an edge, without duplicates.
#[verifier::loop_isolation(false)]
#[verifier::rlimit(100)]
pub fn lace_smoothed_blocks(
    smoothed_block_graphs: &Vec<SmoothedBlock>,
    path_ranges: &Vec<PathRange>,
) -> (r: CombinedGraph)
    requires
        distinct_block_ids(sblocks_v(smoothed_block_graphs@)),
        steps_resolve(sblocks_v(smoothed_block_graphs@), path_ranges_v(path_ranges@)),
    ensures
        graph_wf(r@),
        r@ == lace_smoothed_spec(sblocks_v(smoothed_block_graphs@), path_ranges_v(path_ranges@)),
{
    let ghost bs = sblocks_v(smoothed_block_graphs@);
    let ghost prs = path_ranges_v(path_ranges@);
    let mut g = CombinedGraph::new();
    let nb = smoothed_block_graphs.len();
    let mut bi: usize = 0;
    proof {
        assert(g@.nodes =~= add_block_nodes_upto(Seq::empty(), bs, 0));
        assert(g@.edges =~= add_block_edges_upto(Seq::empty(), bs, 0));
        assert(g@.paths =~= Seq::<PathV>::empty());
        assert forall|y: u64| !id_before(bs, 0, 0, y) by {}
    }
    while bi < nb
        invariant
            0 <= bi <= nb,
            graph_wf(g@),
            g@.nodes == add_block_nodes_upto(Seq::empty(), bs, bi as int),
            g@.edges == add_block_edges_upto(Seq::empty(), bs, bi as int),
            g@.paths == Seq::<PathV>::empty(),
            forall|y: u64| has_node_id(g@.nodes, y) == id_before(bs, bi as int, 0, y),
        decreases nb - bi,
    {
        let block = &smoothed_block_graphs[bi];
        proof {
            assert(sblock_v(smoothed_block_graphs@[bi as int]) == bs[bi as int]);
        }
        let nn = block.nodes.len();
        let mut ni: usize = 0;
        while ni < nn
            invariant
                0 <= ni <= nn,
                nn == bs[bi as int].nodes.len(),
                graph_wf(g@),
                g@.nodes == add_nodes_upto(
                    add_block_nodes_upto(Seq::empty(), bs, bi as int),
                    bs[bi as int].nodes,
                    ni as int,
                ),
                g@.edges == add_block_edges_upto(Seq::empty(), bs, bi as int),
                g@.paths == Seq::<PathV>::empty(),
                forall|y: u64| has_node_id(g@.nodes, y) == id_before(bs, bi as int, ni as int, y),
            decreases nn - ni,
        {
            let ghost x = bs[bi as int].nodes[ni as int];
            let ghost pre = g@.nodes;
            let id = block.nodes[ni].id;
            let seq_copy = sub_bytes(&block.nodes[ni].seq, 0, block.nodes[ni].seq.len());
            proof {
                assert(node_v(block.nodes@[ni as int]) == x);
                assert(block.nodes@[ni as int].seq@.subrange(
                    0,
                    block.nodes@[ni as int].seq@.len() as int,
                ) =~= block.nodes@[ni as int].seq@);
                assert(seq_copy@ == x.seq && id == x.id);
                if has_node_id(pre, id) {
                    assert(id_before(bs, bi as int, ni as int, id));
                    let (b2, n2) = choose|b2: int, n2: int|
                        0 <= b2 < bs.len() && 0 <= n2 < bs[b2].nodes.len() && (b2 < bi as int || (
                        b2 == bi as int && n2 < ni as int)) && (#[trigger] bs[b2].nodes[n2]).id
                            == id;
                    assert(bs[b2].nodes[n2].id == bs[bi as int].nodes[ni as int].id);
                    assert(false);
                }
            }
            g.add_node(id, seq_copy);
            proof {
                assert(g@.nodes == insert_node_v(pre, NodeV { id, seq: seq_copy@ }));
                assert((NodeV { id, seq: seq_copy@ }) == x);
                assert forall|y: u64|
                    has_node_id(g@.nodes, y) == id_before(bs, bi as int, ni + 1, y) by {
                    lemma_insert_node_has_id(pre, x, y);
                    if id_before(bs, bi as int, ni as int, y) || x.id == y {
                        if x.id == y {
                            assert(bs[bi as int].nodes[ni as int].id == y);
                            assert(id_before(bs, bi as int, ni + 1, y));
                        } else {
                            let (b2, n2) = choose|b2: int, n2: int|
                                0 <= b2 < bs.len() && 0 <= n2 < bs[b2].nodes.len() && (b2
                                    < bi as int || (b2 == bi as int && n2 < ni as int)) && (
                                #[trigger] bs[b2].nodes[n2]).id == y;
                            assert(id_before(bs, bi as int, ni + 1, y));
                        }
                    }
                    if id_before(bs, bi as int, ni + 1, y) {
                        let (b2, n2) = choose|b2: int, n2: int|
                            0 <= b2 < bs.len() && 0 <= n2 < bs[b2].nodes.len() && (b2 < bi as int
                                || (b2 == bi as int && n2 < ni + 1)) && (
                            #[trigger] bs[b2].nodes[n2]).id == y;
                        if b2 == bi as int && n2 == ni as int {
                            assert(x.id == y);
                        } else {
                            assert(id_before(bs, bi as int, ni as int, y));
                        }
                    }
                }
            }
            ni += 1;
        }
        let ne = block.edges.len();
        let mut ei: usize = 0;
        proof {
            assert(bs[bi as int].edges == block.edges@);
        }
        while ei < ne
            invariant
                0 <= ei <= ne,
                ne == bs[bi as int].edges.len(),
                graph_wf(g@),
                g@.nodes == add_nodes_upto(
                    add_block_nodes_upto(Seq::empty(), bs, bi as int),
                    bs[bi as int].nodes,
                    bs[bi as int].nodes.len() as int,
                ),
                g@.edges == add_edge_list_upto(
                    add_block_edges_upto(Seq::empty(), bs, bi as int),
                    bs[bi as int].edges,
                    ei as int,
                ),
                g@.paths == Seq::<PathV>::empty(),
                forall|y: u64|
                    has_node_id(g@.nodes, y) == id_before(
                        bs,
                        bi as int,
                        bs[bi as int].nodes.len() as int,
                        y,
                    ),
            decreases ne - ei,
        {
            let e = block.edges[ei];
            g.add_edge(e.from, e.to);
            proof {
                assert((GraphEdge { from: e.from, to: e.to }) == bs[bi as int].edges[ei as int]);
            }
            ei += 1;
        }
        proof {
            assert forall|y: u64|
                id_before(bs, bi as int, bs[bi as int].nodes.len() as int, y) == id_before(
                    bs,
                    bi + 1,
                    0,
                    y,
                ) by {
                if id_before(bs, bi as int, bs[bi as int].nodes.len() as int, y) {
                    let (b2, n2) = choose|b2: int, n2: int|
                        0 <= b2 < bs.len() && 0 <= n2 < bs[b2].nodes.len() && (b2 < bi as int || (
                        b2 == bi as int && n2 < bs[bi as int].nodes.len())) && (
                        #[trigger] bs[b2].nodes[n2]).id == y;
                    assert(b2 < bi + 1);
                    assert(id_before(bs, bi + 1, 0, y));
                }
                if id_before(bs, bi + 1, 0, y) {
                    let (b2, n2) = choose|b2: int, n2: int|
                        0 <= b2 < bs.len() && 0 <= n2 < bs[b2].nodes.len() && (b2 < bi + 1 || (b2
                            == bi + 1 && n2 < 0)) && (#[trigger] bs[b2].nodes[n2]).id == y;
                    assert(id_before(bs, bi as int, bs[bi as int].nodes.len() as int, y));
                }
            }
        }
        bi += 1;
    }
    let ghost base = laced_base(bs);
    let ghost ps = prs.map_values(|p: PathRangeV| lace_path(p));
    proof {
        assert(g@ == base) by {
            assert(g@.nodes == base.nodes && g@.edges == base.edges && g@.paths == base.paths);
        }
        assert(g@ == build_paths_upto(base, ps, 0));
    }
    let np = path_ranges.len();
    let mut pi: usize = 0;
    while pi < np
        invariant
            0 <= pi <= np,
            graph_wf(g@),
            g@ == build_paths_upto(base, ps, pi as int),
        decreases np - pi,
    {
        let pr = &path_ranges[pi];
        proof {
            assert(path_range_v(path_ranges@[pi as int]) == prs[pi as int]);
        }
        let name = sub_bytes(&pr.path_name, 0, pr.path_name.len());
        let ns = pr.steps.len();
        let mut steps: Vec<Step> = Vec::new();
        let mut si: usize = 0;
        proof {
            assert(steps@ =~= lace_steps(prs[pi as int].steps.take(0)));
        }
        while si < ns
            invariant
                0 <= si <= ns,
                ns == prs[pi as int].steps.len(),
                steps@ == lace_steps(prs[pi as int].steps.take(si as int)),
            decreases ns - si,
        {
            let st = pr.steps[si];
            steps.push(Step { id: st.node_id, reverse: false });
            proof {
                assert(prs[pi as int].steps[si as int] == st);
                assert(steps@ =~= lace_steps(prs[pi as int].steps.take(si + 1)));
            }
            si += 1;
        }
        proof {
            assert(prs[pi as int].steps.take(ns as int) =~= prs[pi as int].steps);
            assert(pr.path_name@.subrange(0, pr.path_name@.len() as int) =~= pr.path_name@);
        }
        let path = GraphPath { name, steps };
        proof {
            assert(path_v(path) == ps[pi as int]);
        }
        g.add_path_with_edges(path);
        pi += 1;
    }
    proof {
        assert(ps.len() == prs.len());
    }
    g
}

} // verus!
