//! Deterministic textual serialization of the combined graph: a header
//! line, one segment line per node in id order, one link line per edge in
//! endpoint order, and one path line per path in name order. The byte
//! output is an exact function of the graph's content.

use vstd::prelude::*;

use crate::graph::{Step, GraphEdge, GraphNode, GraphPath, NodeV, PathV, GraphV, CombinedGraph};
use crate::bytes::{dec_digits, push_u64_dec, push_all_bytes};

verus! {

/// The strand character: `-` for reverse, `+` for forward.
pub open spec fn orient_byte(reverse: bool) -> u8 {
    if reverse {
        45u8
    } else {
        43u8
    }
}

/// One oriented step token of a path line: the node id then its strand.
pub open spec fn render_step_token(st: Step) -> Seq<u8> {
    dec_digits(st.id as nat) + seq![orient_byte(st.reverse)]
}

/// The comma-joined step tokens of a path line.
pub open spec fn render_steps(ss: Seq<Step>) -> Seq<u8>
    decreases ss.len(),
{
    if ss.len() == 0 {
        Seq::empty()
    } else if ss.len() == 1 {
        render_step_token(ss[0])
    } else {
        render_steps(ss.drop_last()) + seq![44u8] + render_step_token(ss.last())
    }
}

/// The header line `H<tab>VN:Z:1.0<newline>`.
pub open spec fn header_line() -> Seq<u8> {
    seq![72u8, 9u8, 86u8, 78u8, 58u8, 90u8, 58u8, 49u8, 46u8, 48u8, 10u8]
}

/// A segment line: `S<tab>id<tab>sequence<newline>`.
pub open spec fn render_node_line(n: NodeV) -> Seq<u8> {
    seq![83u8, 9u8] + dec_digits(n.id as nat) + seq![9u8] + n.seq + seq![10u8]
}

pub open spec fn render_nodes(ns: Seq<NodeV>) -> Seq<u8>
    decreases ns.len(),
{
    if ns.len() == 0 {
        Seq::empty()
    } else {
        render_nodes(ns.drop_last()) + render_node_line(ns.last())
    }
}

/// A link line: `L<tab>from<tab>strand<tab>to<tab>strand<tab>0M<newline>`.
pub open spec fn render_edge_line(e: GraphEdge) -> Seq<u8> {
    seq![76u8, 9u8] + dec_digits(e.from.id as nat) + seq![9u8, orient_byte(e.from.reverse), 9u8]
        + dec_digits(e.to.id as nat) + seq![9u8, orient_byte(e.to.reverse), 9u8, 48u8, 77u8, 10u8]
}

pub open spec fn render_edges(es: Seq<GraphEdge>) -> Seq<u8>
    decreases es.len(),
{
    if es.len() == 0 {
        Seq::empty()
    } else {
        render_edges(es.drop_last()) + render_edge_line(es.last())
    }
}

/// A path line: `P<tab>name<tab>steps<tab>*<newline>`.
pub open spec fn render_path_line(p: PathV) -> Seq<u8> {
    seq![80u8, 9u8] + p.name + seq![9u8] + render_steps(p.steps) + seq![9u8, 42u8, 10u8]
}

pub open spec fn render_paths(ps: Seq<PathV>) -> Seq<u8>
    decreases ps.len(),
{
    if ps.len() == 0 {
        Seq::empty()
    } else {
        render_paths(ps.drop_last()) + render_path_line(ps.last())
    }
}

/// The whole serialized graph.
pub open spec fn render_graph(g: GraphV) -> Seq<u8> {
    header_line() + render_nodes(g.nodes) + render_edges(g.edges) + render_paths(g.paths)
}

fn push_step_token(out: &mut Vec<u8>, st: Step)
    ensures
        final(out)@ == old(out)@ + render_step_token(st),
{
    push_u64_dec(out, st.id);
    if st.reverse {
        out.push(45u8);
    } else {
        out.push(43u8);
    }
    proof {
        assert(out@ =~= old(out)@ + render_step_token(st));
    }
}

#[verifier::loop_isolation(false)]
fn push_steps(out: &mut Vec<u8>, steps: &Vec<Step>)
    ensures
        final(out)@ == old(out)@ + render_steps(steps@),
{
    let mut i: usize = 0;
    while i < steps.len()
        invariant
            0 <= i <= steps@.len(),
            out@ == old(out)@ + render_steps(steps@.take(i as int)),
        decreases steps@.len() - i,
    {
        if i > 0 {
            out.push(44u8);
        }
        push_step_token(out, steps[i]);
        proof {
            let t = steps@.take(i + 1);
            assert(t.drop_last() =~= steps@.take(i as int));
            assert(t.last() == steps@[i as int]);
            if i == 0 {
                assert(t.len() == 1 && t[0] == steps@[0]);
                assert(render_steps(t) == render_step_token(steps@[0]));
                assert(out@ =~= old(out)@ + render_steps(t));
            } else {
                assert(out@ =~= old(out)@ + render_steps(t));
            }
        }
        i += 1;
    }
    proof {
        assert(steps@.take(steps@.len() as int) =~= steps@);
    }
}

fn push_node_line(out: &mut Vec<u8>, n: &GraphNode)
    ensures
        final(out)@ == old(out)@ + render_node_line(crate::graph::node_v(*n)),
{
    out.push(83u8);
    out.push(9u8);
    push_u64_dec(out, n.id);
    out.push(9u8);
    push_all_bytes(out, &n.seq);
    out.push(10u8);
    proof {
        assert(out@ =~= old(out)@ + render_node_line(crate::graph::node_v(*n)));
    }
}

fn push_edge_line(out: &mut Vec<u8>, e: &GraphEdge)
    ensures
        final(out)@ == old(out)@ + render_edge_line(*e),
{
    out.push(76u8);
    out.push(9u8);
    push_u64_dec(out, e.from.id);
    out.push(9u8);
    if e.from.reverse {
        out.push(45u8);
    } else {
        out.push(43u8);
    }
    out.push(9u8);
    push_u64_dec(out, e.to.id);
    out.push(9u8);
    if e.to.reverse {
        out.push(45u8);
    } else {
        out.push(43u8);
    }
    out.push(9u8);
    out.push(48u8);
    out.push(77u8);
    out.push(10u8);
    proof {
        assert(out@ =~= old(out)@ + render_edge_line(*e));
    }
}

fn push_path_line(out: &mut Vec<u8>, p: &GraphPath)
    ensures
        final(out)@ == old(out)@ + render_path_line(crate::graph::path_v(*p)),
{
    out.push(80u8);
    out.push(9u8);
    push_all_bytes(out, &p.name);
    out.push(9u8);
    push_steps(out, &p.steps);
    out.push(9u8);
    out.push(42u8);
    out.push(10u8);
    proof {
        assert(out@ =~= old(out)@ + render_path_line(crate::graph::path_v(*p)));
    }
}

/// Serializes the combined graph: a `H` line, `S` lines in ascending node
/// id order, `L` lines in endpoint order, and `P` lines in name order,
/// exactly as the graph's well-formedness keeps them. The output bytes are
/// a function of the graph's content alone, so equal graphs serialize
/// byte-identically.
#[verifier::loop_isolation(false)]
pub fn write_graph_to_gfa(g: &CombinedGraph) -> (out: Vec<u8>)
    requires
        crate::graph::graph_wf(g@),
    ensures
        out@ == render_graph(g@),
{
    let mut out: Vec<u8> = Vec::new();
    out.push(72u8);
    out.push(9u8);
    out.push(86u8);
    out.push(78u8);
    out.push(58u8);
    out.push(90u8);
    out.push(58u8);
    out.push(49u8);
    out.push(46u8);
    out.push(48u8);
    out.push(10u8);
    proof {
        assert(out@ =~= header_line());
        assert(out@ =~= header_line() + render_nodes(g@.nodes.take(0)));
    }
    let mut i: usize = 0;
    while i < g.nodes.len()
        invariant
            0 <= i <= g.nodes@.len(),
            out@ == header_line() + render_nodes(g@.nodes.take(i as int)),
        decreases g.nodes@.len() - i,
    {
        push_node_line(&mut out, &g.nodes[i]);
        proof {
            let t = g@.nodes.take(i + 1);
            assert(t.drop_last() =~= g@.nodes.take(i as int));
            assert(t.last() == g@.nodes[i as int]);
            assert(crate::graph::node_v(g.nodes@[i as int]) == g@.nodes[i as int]);
            assert(out@ =~= header_line() + render_nodes(t));
        }
        i += 1;
    }
    proof {
        assert(g@.nodes.take(g@.nodes.len() as int) =~= g@.nodes);
    }
    let ghost part1 = header_line() + render_nodes(g@.nodes);
    let mut j: usize = 0;
    while j < g.edges.len()
        invariant
            0 <= j <= g.edges@.len(),
            out@ == part1 + render_edges(g@.edges.take(j as int)),
        decreases g.edges@.len() - j,
    {
        let e = g.edges[j];
        push_edge_line(&mut out, &e);
        proof {
            let t = g@.edges.take(j + 1);
            assert(t.drop_last() =~= g@.edges.take(j as int));
            assert(t.last() == g@.edges[j as int]);
            assert(out@ =~= part1 + render_edges(t));
        }
        j += 1;
    }
    proof {
        assert(g@.edges.take(g@.edges.len() as int) =~= g@.edges);
    }
    let ghost part2 = part1 + render_edges(g@.edges);
    let mut k: usize = 0;
    while k < g.paths.len()
        invariant
            0 <= k <= g.paths@.len(),
            out@ == part2 + render_paths(g@.paths.take(k as int)),
        decreases g.paths@.len() - k,
    {
        push_path_line(&mut out, &g.paths[k]);
        proof {
            let t = g@.paths.take(k + 1);
            assert(t.drop_last() =~= g@.paths.take(k as int));
            assert(t.last() == g@.paths[k as int]);
            assert(crate::graph::path_v(g.paths@[k as int]) == g@.paths[k as int]);
            assert(out@ =~= part2 + render_paths(t));
        }
        k += 1;
    }
    proof {
        assert(g@.paths.take(g@.paths.len() as int) =~= g@.paths);
        assert(out@ =~= render_graph(g@));
    }
    out
}

} // verus!
