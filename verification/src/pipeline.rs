//! The whole lacing pipeline over in-memory blocks: fold every block into
//! the combined graph under its id translation, then reconcile the
//! collected locus ranges into final paths, locus by locus in key order.

use vstd::prelude::*;

use crate::graph::{GraphV, NodeV, CombinedGraph, graph_wf};
use crate::reconcile::{reconcile_key, reconcile_key_spec, diag_ok, LocusDiag};
use crate::translate::{
    BlockGraph, BlockV, KeyEntryV, RangeIndex, index_wf, block_wf, ids_below, integrate_nodes,
    insert_edges_upto, extract_upto, integrate_block,
};

verus! {

pub open spec fn blocks_v(s: Seq<BlockGraph>) -> Seq<BlockV> {
    s.map_values(|b: BlockGraph| b@)
}

/// The empty combined graph.
pub open spec fn empty_graph() -> GraphV {
    GraphV {
        nodes: Seq::<NodeV>::empty(),
        edges: Seq::empty(),
        paths: Seq::empty(),
    }
}

/// The accumulating state of the integration phase: the combined graph and
/// the range index.
pub struct LaceState {
    pub g: GraphV,
    pub idx: Seq<KeyEntryV>,
}

/// The state after folding in the first `k` blocks; block `k` is
/// translated by the node count the graph has at that point.
pub open spec fn integrate_all(st: LaceState, bs: Seq<BlockV>, k: int) -> LaceState
    decreases k,
{
    if k <= 0 {
        st
    } else {
        let p = integrate_all(st, bs, k - 1);
        let off = p.g.nodes.len() as int;
        LaceState {
            g: GraphV {
                nodes: integrate_nodes(p.g.nodes, bs[k - 1].sequences, off),
                edges: insert_edges_upto(p.g.edges, bs[k - 1].edges, off, bs[k - 1].edges.len() as int),
                paths: p.g.paths,
            },
            idx: extract_upto(p.idx, bs[k - 1].paths, off, (k - 1) as usize, bs[k - 1].paths.len() as int),
        }
    }
}

/// The graph after reconciling the first `k` locus entries.
pub open spec fn reconcile_entries_upto(g: GraphV, es: Seq<KeyEntryV>, k: int) -> GraphV
    decreases k,
{
    if k <= 0 {
        g
    } else {
        reconcile_key_spec(reconcile_entries_upto(g, es, k - 1), es[k - 1].key, es[k - 1].ranges)
    }
}

/// The combined graph produced by the whole pipeline on a list of blocks.
pub open spec fn lace_spec(bs: Seq<BlockV>) -> GraphV {
    let st = integrate_all(LaceState { g: empty_graph(), idx: Seq::empty() }, bs, bs.len() as int);
    reconcile_entries_upto(st.g, st.idx, st.idx.len() as int)
}

/// Total node count of the first `k` blocks; the translation offset of
/// block `k` equals this running total.
pub open spec fn total_nodes(bs: Seq<BlockV>, k: int) -> int
    decreases k,
{
    if k <= 0 {
        0
    } else {
        total_nodes(bs, k - 1) + bs[k - 1].sequences.len()
    }
}

pub proof fn lemma_total_nodes_monotone(bs: Seq<BlockV>, i: int, j: int)
    requires
        0 <= i <= j,
    ensures
        total_nodes(bs, i) <= total_nodes(bs, j),
    decreases j - i,
{
    if i < j {
        lemma_total_nodes_monotone(bs, i, j - 1);
    }
}

/// After folding in `k` blocks the graph holds exactly the sum of their
/// node counts.
pub proof fn lemma_integrated_node_count(st: LaceState, bs: Seq<BlockV>, k: int)
    requires
        k >= 0,
    ensures
        integrate_all(st, bs, k).g.nodes.len() == st.g.nodes.len() + total_nodes(bs, k),
    decreases k,
{
    if k > 0 {
        lemma_integrated_node_count(st, bs, k - 1);
    }
}

/// Reconciles every collected locus into the combined graph, in key
/// order, and returns the per-locus diagnostics in the same order.
#[verifier::loop_isolation(false)]
pub fn reconcile_all(g: &mut CombinedGraph, index: RangeIndex) -> (diags: Vec<LocusDiag>)
    requires
        graph_wf(old(g)@),
        index_wf(index@),
    ensures
        graph_wf(final(g)@),
        final(g)@ == reconcile_entries_upto(old(g)@, index@, index@.len() as int),
        diags@.len() == index@.len(),
        forall|k: int|
            0 <= k < index@.len() ==> diag_ok(
                #[trigger] diags@[k],
                index@[k].key,
                index@[k].ranges,
            ),
{
    let ghost g0 = g@;
    let ghost ev = index@;
    let mut entries = index.entries;
    let mut diags: Vec<LocusDiag> = Vec::new();
    let ghost k: int = 0;
    proof {
        assert(crate::translate::entries_v(entries@) =~= ev.skip(0));
    }
    while entries.len() > 0
        invariant
            0 <= k <= ev.len(),
            crate::translate::entries_v(entries@) =~= ev.skip(k),
            graph_wf(g@),
            g@ == reconcile_entries_upto(g0, ev, k),
            diags@.len() == k,
            forall|t: int|
                0 <= t < k ==> diag_ok(#[trigger] diags@[t], ev[t].key, ev[t].ranges),
        decreases entries@.len(),
    {
        let ghost pre = entries@;
        let e = entries.remove(0);
        proof {
            assert(crate::translate::entries_v(pre).len() > 0);
            assert(0 <= k < ev.len());
            assert(crate::translate::entry_v(e) == crate::translate::entries_v(pre)[0]);
            assert(crate::translate::entry_v(e) == ev[k]);
            assert(crate::translate::entries_v(entries@) =~= crate::translate::entries_v(
                pre,
            ).remove(0));
            assert(crate::translate::entries_v(pre).remove(0) =~= ev.skip(k + 1));
            assert(crate::reconcile::ranges_v(e.ranges@) == ev[k].ranges);
            assert(ev[k].ranges.len() > 0);
        }
        let d = reconcile_key(g, e.key, e.ranges);
        diags.push(d);
        proof {
            k = k + 1;
        }
    }
    proof {
        assert(k == ev.len());
    }
    diags
}

/// Runs the whole pipeline over a list of loaded blocks: folds each block
/// into a fresh combined graph under its id translation, then reconciles
/// every locus. The result is an exact function of the blocks' content,
/// so a second run over equal blocks produces an equal graph.
#[verifier::loop_isolation(false)]
pub fn lace_blocks(blocks: &Vec<BlockGraph>) -> (r: (CombinedGraph, Vec<LocusDiag>))
    requires
        forall|i: int| 0 <= i < blocks@.len() ==> block_wf(#[trigger] blocks@[i]@),
        total_nodes(blocks_v(blocks@), blocks@.len() as int) <= u64::MAX,
    ensures
        graph_wf(r.0@),
        r.0@ == lace_spec(blocks_v(blocks@)),
        ({
            let st = integrate_all(
                LaceState { g: empty_graph(), idx: Seq::empty() },
                blocks_v(blocks@),
                blocks@.len() as int,
            );
            r.1@.len() == st.idx.len() && (forall|t: int|
                0 <= t < st.idx.len() ==> diag_ok(
                    #[trigger] r.1@[t],
                    st.idx[t].key,
                    st.idx[t].ranges,
                ))
        }),
{
    let ghost bv = blocks_v(blocks@);
    let ghost st0 = LaceState { g: empty_graph(), idx: Seq::<KeyEntryV>::empty() };
    let mut g = CombinedGraph::new();
    let mut index = RangeIndex::new();
    let n = blocks.len();
    let mut i: usize = 0;
    proof {
        assert(g@ =~= st0.g);
        assert((LaceState { g: g@, idx: index@ }) == integrate_all(st0, bv, 0));
        assert(ids_below(g@.nodes, g@.nodes.len() as int));
    }
    while i < n
        invariant
            0 <= i <= n,
            graph_wf(g@),
            index_wf(index@),
            ids_below(g@.nodes, g@.nodes.len() as int),
            (LaceState { g: g@, idx: index@ }) == integrate_all(st0, bv, i as int),
            g@.nodes.len() == total_nodes(bv, i as int),
        decreases n - i,
    {
        proof {
            assert(blocks@[i as int]@ == bv[i as int]);
            lemma_total_nodes_monotone(bv, i + 1, bv.len() as int);
            assert(g@.nodes.len() + bv[i as int].sequences.len() <= u64::MAX);
        }
        integrate_block(&mut g, &mut index, &blocks[i], i);
        proof {
            let p = integrate_all(st0, bv, i as int);
            let q = integrate_all(st0, bv, i + 1);
            assert(q.g == g@) by {
                assert(g@.nodes == q.g.nodes && g@.edges == q.g.edges && g@.paths == q.g.paths);
            }
            assert(q.idx == index@);
            assert((LaceState { g: g@, idx: index@ }) == q);
        }
        i += 1;
    }
    let diags = reconcile_all(&mut g, index);
    (g, diags)
}

} // verus!
