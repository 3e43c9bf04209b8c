//! Folding one loaded block into the combined graph: every node, edge
//! endpoint and path step of the block is shifted by the combined graph's
//! current node count, and every path whose name carries a locus key and
//! coordinate range is recorded for reconciliation.

use vstd::prelude::*;

use crate::graph::{
    Step, GraphEdge, NodeV, PathV, CombinedGraph, graph_wf, insert_edge_v, has_node_id,
};
use crate::bytes::{lex_lt, lemma_lex_trichotomy, bytes_lt, bytes_eq, sub_bytes};
use crate::name::{spec_split_path_name, split_path_name};
use crate::reconcile::{RangeInfo, RangeV};

verus! {

/// A named path of a block, with block-local step ids.
pub struct BlockPath {
    pub name: Vec<u8>,
    pub steps: Vec<Step>,
}

/// One loaded block: node `i + 1` carries `sequences[i]`, so node ids are
/// dense and start at one; edges and path steps refer to those ids.
pub struct BlockGraph {
    pub sequences: Vec<Vec<u8>>,
    pub edges: Vec<GraphEdge>,
    pub paths: Vec<BlockPath>,
}

/// Mathematical image of a block.
pub struct BlockV {
    pub sequences: Seq<Seq<u8>>,
    pub edges: Seq<GraphEdge>,
    pub paths: Seq<PathV>,
}

pub open spec fn seqs_v(s: Seq<Vec<u8>>) -> Seq<Seq<u8>> {
    s.map_values(|v: Vec<u8>| v@)
}

pub open spec fn bpath_v(p: BlockPath) -> PathV {
    PathV { name: p.name@, steps: p.steps@ }
}

pub open spec fn bpaths_v(s: Seq<BlockPath>) -> Seq<PathV> {
    s.map_values(|p: BlockPath| bpath_v(p))
}

impl View for BlockGraph {
    type V = BlockV;

    open spec fn view(&self) -> BlockV {
        BlockV {
            sequences: seqs_v(self.sequences@),
            edges: self.edges@,
            paths: bpaths_v(self.paths@),
        }
    }
}

/// A step refers to one of the block's own dense node ids.
pub open spec fn step_in_block(st: Step, m: int) -> bool {
    1 <= st.id <= m
}

/// A well-formed block: every edge endpoint and every path step names one
/// of the block's own nodes.
pub open spec fn block_wf(b: BlockV) -> bool {
    let m = b.sequences.len() as int;
    (forall|i: int|
        0 <= i < b.edges.len() ==> step_in_block((#[trigger] b.edges[i]).from, m) && step_in_block(
            b.edges[i].to,
            m,
        )) && (forall|i: int, j: int|
        0 <= i < b.paths.len() && 0 <= j < b.paths[i].steps.len() ==> step_in_block(
            #[trigger] b.paths[i].steps[j],
            m,
        ))
}

/// Every node id lies at or below `bound`; the combined graph keeps its
/// ids at or below its node count, so a fresh block lands above them all.
pub open spec fn ids_below(nodes: Seq<NodeV>, bound: int) -> bool {
    forall|i: int| 0 <= i < nodes.len() ==> (#[trigger] nodes[i]).id <= bound
}

/// One step shifted into the combined id space.
pub open spec fn translate_step(st: Step, off: int) -> Step {
    Step { id: (st.id + off) as u64, reverse: st.reverse }
}

pub open spec fn translate_steps(ss: Seq<Step>, off: int) -> Seq<Step> {
    ss.map_values(|st: Step| translate_step(st, off))
}

pub open spec fn translate_edge(e: GraphEdge, off: int) -> GraphEdge {
    GraphEdge { from: translate_step(e.from, off), to: translate_step(e.to, off) }
}

/// The block's nodes under translation: block node `i + 1` becomes the
/// combined node `off + i + 1`.
pub open spec fn translated_nodes(seqs: Seq<Seq<u8>>, off: int) -> Seq<NodeV> {
    Seq::new(seqs.len(), |i: int| NodeV { id: (off + i + 1) as u64, seq: seqs[i] })
}

/// The combined edge set after inserting the first `k` translated block
/// edges.
pub open spec fn insert_edges_upto(
    edges: Seq<GraphEdge>,
    bedges: Seq<GraphEdge>,
    off: int,
    k: int,
) -> Seq<GraphEdge>
    decreases k,
{
    if k <= 0 {
        edges
    } else {
        insert_edge_v(insert_edges_upto(edges, bedges, off, k - 1), translate_edge(bedges[k - 1], off))
    }
}

/// One locus entry of the range index.
pub struct KeyRanges {
    pub key: Vec<u8>,
    pub ranges: Vec<RangeInfo>,
}

/// Mathematical image of one locus entry.
pub struct KeyEntryV {
    pub key: Seq<u8>,
    pub ranges: Seq<RangeV>,
}

pub open spec fn entry_v(e: KeyRanges) -> KeyEntryV {
    KeyEntryV { key: e.key@, ranges: crate::reconcile::ranges_v(e.ranges@) }
}

pub open spec fn entries_v(s: Seq<KeyRanges>) -> Seq<KeyEntryV> {
    s.map_values(|e: KeyRanges| entry_v(e))
}

/// The per-locus range map, kept as a list of entries sorted by key so
/// that reconciliation walks the loci in key order.
pub struct RangeIndex {
    pub entries: Vec<KeyRanges>,
}

impl View for RangeIndex {
    type V = Seq<KeyEntryV>;

    open spec fn view(&self) -> Seq<KeyEntryV> {
        entries_v(self.entries@)
    }
}

/// Keys strictly increase and every entry holds at least one range.
pub open spec fn index_wf(es: Seq<KeyEntryV>) -> bool {
    (forall|i: int|
        0 <= i < es.len() - 1 ==> lex_lt((#[trigger] es[i]).key, es[i + 1].key)) && (forall|i: int|
        0 <= i < es.len() ==> (#[trigger] es[i]).ranges.len() > 0)
}

/// Insertion of one range under its key: an existing entry collects it,
/// and a new key opens a new entry at its sorted position.
pub open spec fn index_insert(es: Seq<KeyEntryV>, key: Seq<u8>, r: RangeV) -> Seq<KeyEntryV>
    decreases es.len(),
{
    if es.len() > 0 && lex_lt(key, es.last().key) {
        index_insert(es.drop_last(), key, r).push(es.last())
    } else if es.len() > 0 && es.last().key == key {
        es.drop_last().push(KeyEntryV { key, ranges: es.last().ranges.push(r) })
    } else {
        es.push(KeyEntryV { key, ranges: seq![r] })
    }
}

proof fn lemma_index_insert_at(es: Seq<KeyEntryV>, key: Seq<u8>, r: RangeV, pos: int)
    requires
        0 <= pos <= es.len(),
        forall|j: int| pos <= j < es.len() ==> lex_lt(key, (#[trigger] es[j]).key),
        pos > 0 ==> !lex_lt(key, es[pos - 1].key),
    ensures
        pos > 0 && es[pos - 1].key == key ==> index_insert(es, key, r) == es.update(
            pos - 1,
            KeyEntryV { key, ranges: es[pos - 1].ranges.push(r) },
        ),
        !(pos > 0 && es[pos - 1].key == key) ==> index_insert(es, key, r) == es.insert(
            pos,
            KeyEntryV { key, ranges: seq![r] },
        ),
    decreases es.len(),
{
    if es.len() > pos {
        lemma_index_insert_at(es.drop_last(), key, r, pos);
        if pos > 0 && es[pos - 1].key == key {
            assert(index_insert(es, key, r) =~= es.update(
                pos - 1,
                KeyEntryV { key, ranges: es[pos - 1].ranges.push(r) },
            ));
        } else {
            assert(index_insert(es, key, r) =~= es.insert(pos, KeyEntryV { key, ranges: seq![r] }));
        }
    } else {
        if pos > 0 && es[pos - 1].key == key {
            assert(index_insert(es, key, r) =~= es.update(
                pos - 1,
                KeyEntryV { key, ranges: es[pos - 1].ranges.push(r) },
            ));
        } else {
            assert(index_insert(es, key, r) =~= es.insert(pos, KeyEntryV { key, ranges: seq![r] }));
        }
    }
}

impl RangeIndex {
    /// An empty index.
    pub fn new() -> (r: RangeIndex)
        ensures
            r@ == Seq::<KeyEntryV>::empty(),
            index_wf(r@),
    {
        let r = RangeIndex { entries: Vec::new() };
        proof {
            assert(r@ =~= Seq::<KeyEntryV>::empty());
        }
        r
    }

    /// Records one range under its locus key.
    #[verifier::rlimit(100)]
    pub fn insert(&mut self, key: Vec<u8>, r: RangeInfo)
        requires
            index_wf(old(self)@),
        ensures
            index_wf(final(self)@),
            final(self)@ == index_insert(old(self)@, key@, crate::reconcile::range_v(r)),
    {
        let ghost es = self@;
        let ghost rv = crate::reconcile::range_v(r);
        let mut pos: usize = self.entries.len();
        while pos > 0 && bytes_lt(&key, &self.entries[pos - 1].key)
            invariant
                0 <= pos <= self.entries@.len(),
                forall|j: int|
                    pos <= j < self.entries@.len() ==> lex_lt(
                        key@,
                        (#[trigger] entries_v(self.entries@)[j]).key,
                    ),
            decreases pos,
        {
            pos -= 1;
        }
        proof {
            lemma_index_insert_at(es, key@, rv, pos as int);
            if pos > 0 {
                lemma_lex_trichotomy(key@, es[pos as int - 1].key);
            }
        }
        if pos > 0 && bytes_eq(&key, &self.entries[pos - 1].key) {
            let ghost pre = self.entries@;
            let mut e = self.entries.remove(pos - 1);
            proof {
                assert(entry_v(pre[pos as int - 1]) == es[pos as int - 1]);
            }
            e.ranges.push(r);
            proof {
                assert(e.key@ == es[pos as int - 1].key);
                assert(crate::reconcile::ranges_v(e.ranges@) =~= es[pos as int - 1].ranges.push(
                    rv,
                ));
                assert(entry_v(e) == (KeyEntryV {
                    key: es[pos as int - 1].key,
                    ranges: es[pos as int - 1].ranges.push(rv),
                }));
                assert(es[pos as int - 1].key == key@);
            }
            self.entries.insert(pos - 1, e);
            proof {
                assert(entries_v(self.entries@) =~= es.update(
                    pos as int - 1,
                    KeyEntryV { key: key@, ranges: es[pos as int - 1].ranges.push(rv) },
                ));
                let t = entries_v(self.entries@);
                assert forall|i: int|
                    0 <= i < t.len() - 1 implies lex_lt(#[trigger] t[i].key, t[i + 1].key) by {
                    assert(t[i].key == es[i].key && t[i + 1].key == es[i + 1].key);
                }
            }
        } else {
            let e = KeyRanges { key, ranges: vec![r] };
            proof {
                assert(e.ranges@ =~= seq![r]);
                assert(crate::reconcile::ranges_v(e.ranges@) =~= seq![rv]);
                assert(entry_v(e) == (KeyEntryV { key: e.key@, ranges: seq![rv] }));
            }
            self.entries.insert(pos, e);
            proof {
                assert(entries_v(self.entries@) =~= es.insert(
                    pos as int,
                    KeyEntryV { key: key@, ranges: seq![rv] },
                ));
                let t = entries_v(self.entries@);
                assert forall|i: int|
                    0 <= i < t.len() - 1 implies lex_lt(#[trigger] t[i].key, t[i + 1].key) by {
                    if i + 1 < pos {
                        assert(t[i] == es[i] && t[i + 1] == es[i + 1]);
                    } else if i + 1 == pos {
                        assert(t[i] == es[i] && t[i + 1].key == key@);
                    } else if i == pos {
                        assert(t[i].key == key@ && t[i + 1] == es[i]);
                    } else {
                        assert(t[i] == es[i - 1] && t[i + 1] == es[i]);
                    }
                }
            }
        }
    }
}

/// The range index after extracting the first `k` paths of a block.
pub open spec fn extract_upto(
    es: Seq<KeyEntryV>,
    paths: Seq<PathV>,
    off: int,
    gid: usize,
    k: int,
) -> Seq<KeyEntryV>
    decreases k,
{
    if k <= 0 {
        es
    } else {
        let prev = extract_upto(es, paths, off, gid, k - 1);
        match spec_split_path_name(paths[k - 1].name) {
            Some(t) => index_insert(
                prev,
                t.0,
                RangeV {
                    start: t.1 as usize,
                    end: t.2 as usize,
                    gfa_id: gid,
                    steps: translate_steps(paths[k - 1].steps, off),
                },
            ),
            None => prev,
        }
    }
}

} // verus!

verus! {

/// The combined graph's node list after folding in a whole block at the
/// given offset.
pub open spec fn integrate_nodes(nodes: Seq<NodeV>, seqs: Seq<Seq<u8>>, off: int) -> Seq<NodeV> {
    nodes + translated_nodes(seqs, off)
}

/// Adds the block's nodes under the translation `id + off`.
#[verifier::loop_isolation(false)]
fn add_block_nodes(g: &mut CombinedGraph, block: &BlockGraph, off: usize)
    requires
        graph_wf(old(g)@),
        ids_below(old(g)@.nodes, off as int),
        off == old(g)@.nodes.len(),
        off + block@.sequences.len() <= u64::MAX,
    ensures
        graph_wf(final(g)@),
        final(g)@.nodes == integrate_nodes(old(g)@.nodes, block@.sequences, off as int),
        final(g)@.edges == old(g)@.edges,
        final(g)@.paths == old(g)@.paths,
{
    let off64 = off as u64;
    let ghost g0 = g@;
    let ghost bv = block@;
    let m = block.sequences.len();
    let mut i: usize = 0;
    proof {
        assert(g@.nodes =~= g0.nodes + translated_nodes(bv.sequences.take(0), off as int));
    }
    while i < m
        invariant
            0 <= i <= m,
            graph_wf(g@),
            g@.nodes == g0.nodes + translated_nodes(bv.sequences.take(i as int), off as int),
            g@.edges == g0.edges,
            g@.paths == g0.paths,
            ids_below(g@.nodes, off + i),
        decreases m - i,
    {
        let seq_copy = sub_bytes(&block.sequences[i], 0, block.sequences[i].len());
        let id: u64 = off64 + (i as u64) + 1;
        proof {
            assert(block.sequences@[i as int]@.subrange(
                0,
                block.sequences@[i as int]@.len() as int,
            ) =~= block.sequences@[i as int]@);
            assert(seq_copy@ == bv.sequences[i as int]);
            assert(id == (off + i + 1) as u64);
            let cur = g@.nodes;
            assert forall|w: int| 0 <= w < cur.len() implies (#[trigger] cur[w]).id != id by {
                assert(cur[w].id <= off + i);
            }
            assert(!has_node_id(g@.nodes, id));
            if cur.len() > 0 {
                assert(cur[cur.len() - 1].id <= off + i);
            }
            crate::graph::lemma_insert_node_append(cur, NodeV { id, seq: seq_copy@ });
        }
        let ghost prev_nodes = g@.nodes;
        g.add_node(id, seq_copy);
        proof {
            let tgt = g0.nodes + translated_nodes(bv.sequences.take(i + 1), off as int);
            assert(g@.nodes == prev_nodes.push(NodeV { id, seq: seq_copy@ }));
            assert(tgt.len() == prev_nodes.len() + 1);
            assert(translated_nodes(bv.sequences.take(i + 1), off as int)[i as int] == (NodeV {
                id: (off + i + 1) as u64,
                seq: bv.sequences.take(i + 1)[i as int],
            }));
            assert(bv.sequences.take(i + 1)[i as int] == bv.sequences[i as int]);
            assert(tgt[prev_nodes.len() as int] == (NodeV { id, seq: seq_copy@ }));
            assert forall|w: int| 0 <= w < prev_nodes.len() implies tgt[w] == prev_nodes[w] by {
                if w >= g0.nodes.len() {
                    let a = translated_nodes(bv.sequences.take(i as int), off as int);
                    let b = translated_nodes(bv.sequences.take(i + 1), off as int);
                    assert(a[w - g0.nodes.len()] == b[w - g0.nodes.len()]);
                }
            }
            assert(g@.nodes =~= tgt);
        }
        i += 1;
    }
    proof {
        assert(bv.sequences.take(m as int) =~= bv.sequences);
    }
}

/// Adds the block's edges under the translation `id + off`, without
/// duplicates.
#[verifier::loop_isolation(false)]
fn add_block_edges(g: &mut CombinedGraph, block: &BlockGraph, off: usize)
    requires
        graph_wf(old(g)@),
        block_wf(block@),
        off + block@.sequences.len() <= u64::MAX,
    ensures
        graph_wf(final(g)@),
        final(g)@.nodes == old(g)@.nodes,
        final(g)@.paths == old(g)@.paths,
        final(g)@.edges == insert_edges_upto(
            old(g)@.edges,
            block@.edges,
            off as int,
            block@.edges.len() as int,
        ),
{
    let off64 = off as u64;
    let ghost g0 = g@;
    let ghost bv = block@;
    let ne = block.edges.len();
    let m = block.sequences.len();
    let mut j: usize = 0;
    while j < ne
        invariant
            0 <= j <= ne,
            graph_wf(g@),
            g@.nodes == g0.nodes,
            g@.paths == g0.paths,
            g@.edges == insert_edges_upto(g0.edges, bv.edges, off as int, j as int),
        decreases ne - j,
    {
        let e = block.edges[j];
        proof {
            assert(bv.edges[j as int] == e);
            assert(step_in_block(e.from, m as int) && step_in_block(e.to, m as int));
        }
        let tf = Step { id: e.from.id + off64, reverse: e.from.reverse };
        let tt = Step { id: e.to.id + off64, reverse: e.to.reverse };
        g.add_edge(tf, tt);
        proof {
            assert((GraphEdge { from: tf, to: tt }) == translate_edge(
                bv.edges[j as int],
                off as int,
            ));
        }
        j += 1;
    }
}

/// Records a range for every block path whose name parses as a locus key
/// with a coordinate range, with its steps translated by `off`.
#[verifier::loop_isolation(false)]
fn extract_block_ranges(
    index: &mut RangeIndex,
    block: &BlockGraph,
    off: usize,
    gfa_id: usize,
)
    requires
        index_wf(old(index)@),
        block_wf(block@),
        off + block@.sequences.len() <= u64::MAX,
    ensures
        index_wf(final(index)@),
        final(index)@ == extract_upto(
            old(index)@,
            block@.paths,
            off as int,
            gfa_id,
            block@.paths.len() as int,
        ),
{
    let off64 = off as u64;
    let ghost bv = block@;
    let m = block.sequences.len();
    let np = block.paths.len();
    let mut p: usize = 0;
    while p < np
        invariant
            0 <= p <= np,
            index_wf(index@),
            index@ == extract_upto(old(index)@, bv.paths, off as int, gfa_id, p as int),
        decreases np - p,
    {
        proof {
            assert(bpath_v(block.paths@[p as int]) == bv.paths[p as int]);
        }
        match split_path_name(&block.paths[p].name) {
            Some(parsed) => {
                let (key, start, end) = parsed;
                let nsteps = block.paths[p].steps.len();
                let mut ts: Vec<Step> = Vec::new();
                let mut t: usize = 0;
                proof {
                    assert(ts@ =~= translate_steps(bv.paths[p as int].steps.take(0), off as int));
                }
                while t < nsteps
                    invariant
                        0 <= t <= nsteps,
                        nsteps == bv.paths[p as int].steps.len(),
                        ts@ == translate_steps(bv.paths[p as int].steps.take(t as int), off as int),
                    decreases nsteps - t,
                {
                    let st = block.paths[p].steps[t];
                    proof {
                        assert(bv.paths[p as int].steps[t as int] == st);
                        assert(step_in_block(st, m as int));
                    }
                    ts.push(Step { id: st.id + off64, reverse: st.reverse });
                    proof {
                        assert(ts@ =~= translate_steps(
                            bv.paths[p as int].steps.take(t + 1),
                            off as int,
                        ));
                    }
                    t += 1;
                }
                proof {
                    assert(bv.paths[p as int].steps.take(nsteps as int) =~= bv.paths[
                        p as int
                    ].steps);
                }
                let ri = RangeInfo { start, end, gfa_id, steps: ts };
                index.insert(key, ri);
            },
            None => {
            },
        }
        p += 1;
    }
}

/// Folds one loaded block into the combined graph and records its locus
/// ranges: nodes, edge endpoints and path steps are shifted by the graph's
/// current node count, and every path whose name parses as
/// `sample#haplotype#contig:start-end` contributes a range to the index.
pub fn integrate_block(
    g: &mut CombinedGraph,
    index: &mut RangeIndex,
    block: &BlockGraph,
    gfa_id: usize,
)
    requires
        graph_wf(old(g)@),
        ids_below(old(g)@.nodes, old(g)@.nodes.len() as int),
        index_wf(old(index)@),
        block_wf(block@),
        old(g)@.nodes.len() + block@.sequences.len() <= u64::MAX,
    ensures
        graph_wf(final(g)@),
        ids_below(final(g)@.nodes, final(g)@.nodes.len() as int),
        index_wf(final(index)@),
        final(g)@.nodes == integrate_nodes(
            old(g)@.nodes,
            block@.sequences,
            old(g)@.nodes.len() as int,
        ),
        final(g)@.edges == insert_edges_upto(
            old(g)@.edges,
            block@.edges,
            old(g)@.nodes.len() as int,
            block@.edges.len() as int,
        ),
        final(g)@.paths == old(g)@.paths,
        final(index)@ == extract_upto(
            old(index)@,
            block@.paths,
            old(g)@.nodes.len() as int,
            gfa_id,
            block@.paths.len() as int,
        ),
{
    let off = g.node_count();
    add_block_nodes(g, block, off);
    add_block_edges(g, block, off);
    extract_block_ranges(index, block, off, gfa_id);
    proof {
        let nn = g@.nodes;
        assert forall|w: int| 0 <= w < nn.len() implies (#[trigger] nn[w]).id <= nn.len() by {
            if w < old(g)@.nodes.len() {
                assert(old(g)@.nodes[w].id <= off as int);
            } else {
                assert(nn[w] == translated_nodes(block@.sequences, off as int)[w - off]);
            }
        }
    }
}

} // verus!
