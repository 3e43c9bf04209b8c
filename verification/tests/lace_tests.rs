use gfalace::graph::{CombinedGraph, GraphEdge, GraphNode, Step};
use gfalace::lace::{lace_smoothed_blocks, LacePathStep, PathRange, SmoothedBlock};
use gfalace::name::split_path_name;
use gfalace::pipeline::{lace_blocks, reconcile_all};
use gfalace::reconcile::{has_overlap, is_contiguous, reconcile_key, RangeInfo};
use gfalace::serialize::write_graph_to_gfa;
use gfalace::translate::{integrate_block, BlockGraph, BlockPath, RangeIndex};

fn step(id: u64) -> Step {
    Step { id, reverse: false }
}

fn rstep(id: u64) -> Step {
    Step { id, reverse: true }
}

fn range(start: usize, end: usize, gfa_id: usize, steps: Vec<Step>) -> RangeInfo {
    RangeInfo {
        start,
        end,
        gfa_id,
        steps,
    }
}

#[test]
fn split_accepts_well_formed_name() {
    let name = b"sample#1#chr1:100-200".to_vec();
    let parsed = split_path_name(&name);
    assert_eq!(
        parsed,
        Some((b"sample#1#chr1".to_vec(), 100usize, 200usize))
    );
}

#[test]
fn split_rejects_two_fields() {
    let name = b"foo#bar".to_vec();
    assert_eq!(split_path_name(&name), None);
}

#[test]
fn split_rejects_non_numeric_start() {
    let name = b"foo#1#chr1:abc-100".to_vec();
    assert_eq!(split_path_name(&name), None);
}

#[test]
fn split_rejects_four_fields() {
    let name = b"a#b#c#d:1-2".to_vec();
    assert_eq!(split_path_name(&name), None);
}

#[test]
fn split_rejects_missing_range() {
    let name = b"a#b#c".to_vec();
    assert_eq!(split_path_name(&name), None);
}

#[test]
fn split_rejects_two_dashes() {
    let name = b"a#b#c:1-2-3".to_vec();
    assert_eq!(split_path_name(&name), None);
}

#[test]
fn split_rejects_two_colons() {
    let name = b"a#b#c:1:2-3".to_vec();
    assert_eq!(split_path_name(&name), None);
}

#[test]
fn split_rejects_empty_bound() {
    let name = b"a#b#c:-5".to_vec();
    assert_eq!(split_path_name(&name), None);
}

#[test]
fn split_accepts_empty_key_fields() {
    let name = b"##:0-5".to_vec();
    assert_eq!(split_path_name(&name), Some((b"##".to_vec(), 0usize, 5usize)));
}

#[test]
fn contiguity_and_overlap_predicates() {
    let a = range(0, 100, 0, vec![step(1)]);
    let b = range(100, 250, 1, vec![step(2)]);
    let c = range(50, 150, 1, vec![step(3)]);
    assert!(is_contiguous(&a, &b));
    assert!(!is_contiguous(&a, &c));
    assert!(!has_overlap(&a, &b));
    assert!(has_overlap(&a, &c));
}

#[test]
fn edge_added_twice_exists_once() {
    let mut g = CombinedGraph::new();
    g.add_node(1, b"A".to_vec());
    g.add_node(2, b"C".to_vec());
    g.add_edge(step(1), step(2));
    g.add_edge(step(1), step(2));
    assert_eq!(g.edges.len(), 1);
    assert!(g.has_edge(step(1), step(2)));
    assert!(!g.has_edge(step(2), step(1)));
}

#[test]
fn full_reconstruction_single_path() {
    let mut g = CombinedGraph::new();
    let ranges = vec![
        range(0, 100, 0, vec![step(1), step(2)]),
        range(100, 250, 1, vec![step(3)]),
        range(250, 300, 2, vec![step(4), rstep(5)]),
    ];
    let d = reconcile_key(&mut g, b"s#1#chr1".to_vec(), ranges);
    assert!(d.contiguous);
    assert!(!d.overlapping);
    assert_eq!(g.paths.len(), 1);
    assert_eq!(g.paths[0].name, b"s#1#chr1".to_vec());
    assert_eq!(
        g.paths[0].steps,
        vec![step(1), step(2), step(3), step(4), rstep(5)]
    );
    // every adjacent step pair is connected
    assert!(g.has_edge(step(1), step(2)));
    assert!(g.has_edge(step(2), step(3)));
    assert!(g.has_edge(step(3), step(4)));
    assert!(g.has_edge(step(4), rstep(5)));
    assert_eq!(g.edges.len(), 4);
}

#[test]
fn gap_splits_into_two_paths() {
    let mut g = CombinedGraph::new();
    let ranges = vec![
        range(0, 100, 0, vec![step(1)]),
        range(150, 250, 1, vec![step(2)]),
    ];
    let d = reconcile_key(&mut g, b"k#0#c".to_vec(), ranges);
    assert!(!d.contiguous);
    assert!(!d.overlapping);
    assert_eq!(g.paths.len(), 2);
    assert_eq!(g.paths[0].name, b"k#0#c:0-100".to_vec());
    assert_eq!(g.paths[1].name, b"k#0#c:150-250".to_vec());
    assert_eq!(d.merged.len(), 2);
    assert_eq!(d.gaps, vec![50usize]);
    // no edge across the gap
    assert!(!g.has_edge(step(1), step(2)));
}

#[test]
fn overlap_warns_and_splits() {
    let mut g = CombinedGraph::new();
    let ranges = vec![
        range(0, 100, 0, vec![step(1)]),
        range(50, 150, 1, vec![step(2)]),
    ];
    let d = reconcile_key(&mut g, b"k#0#c".to_vec(), ranges);
    assert!(!d.contiguous);
    assert!(d.overlapping);
    assert_eq!(g.paths.len(), 2);
    assert_eq!(g.paths[0].name, b"k#0#c:0-100".to_vec());
    assert_eq!(g.paths[1].name, b"k#0#c:50-150".to_vec());
    assert!(!g.has_edge(step(1), step(2)));
}

#[test]
fn ranges_sorted_before_grouping() {
    let mut g = CombinedGraph::new();
    let ranges = vec![
        range(100, 250, 1, vec![step(2)]),
        range(0, 100, 0, vec![step(1)]),
    ];
    let d = reconcile_key(&mut g, b"k#0#c".to_vec(), ranges);
    assert!(d.contiguous);
    assert_eq!(g.paths.len(), 1);
    assert_eq!(g.paths[0].steps, vec![step(1), step(2)]);
}

fn two_test_blocks() -> Vec<BlockGraph> {
    let block_a = BlockGraph {
        sequences: vec![b"ACGT".to_vec(), b"TT".to_vec()],
        edges: vec![GraphEdge {
            from: step(1),
            to: step(2),
        }],
        paths: vec![BlockPath {
            name: b"s#1#chr1:0-6".to_vec(),
            steps: vec![step(1), step(2)],
        }],
    };
    let block_b = BlockGraph {
        sequences: vec![b"GG".to_vec()],
        edges: vec![],
        paths: vec![BlockPath {
            name: b"s#1#chr1:6-8".to_vec(),
            steps: vec![step(1)],
        }],
    };
    vec![block_a, block_b]
}

#[test]
fn translation_offsets_are_running_totals() {
    let blocks = two_test_blocks();
    let mut g = CombinedGraph::new();
    let mut index = RangeIndex::new();
    integrate_block(&mut g, &mut index, &blocks[0], 0);
    assert_eq!(g.node_count(), 2);
    integrate_block(&mut g, &mut index, &blocks[1], 1);
    assert_eq!(g.node_count(), 3);
    let ids: Vec<u64> = g.nodes.iter().map(|n| n.id).collect();
    assert_eq!(ids, vec![1, 2, 3]);
    assert_eq!(g.nodes[2].seq, b"GG".to_vec());
    // the translated block edge
    assert!(g.has_edge(step(1), step(2)));
    assert_eq!(g.edges.len(), 1);
}

#[test]
fn pipeline_splices_contiguous_fragments_across_blocks() {
    let blocks = two_test_blocks();
    let (g, diags) = lace_blocks(&blocks);
    assert_eq!(g.paths.len(), 1);
    assert_eq!(g.paths[0].name, b"s#1#chr1".to_vec());
    // block ids 1,2 of block A stay, block B's node 1 becomes 3
    assert_eq!(g.paths[0].steps, vec![step(1), step(2), step(3)]);
    // the splice edge 2 -> 3 is derived
    assert!(g.has_edge(step(2), step(3)));
    assert_eq!(diags.len(), 1);
    assert!(diags[0].contiguous);
}

#[test]
fn unparsable_path_names_are_dropped() {
    let mut blocks = two_test_blocks();
    blocks[0].paths.push(BlockPath {
        name: b"foo#bar".to_vec(),
        steps: vec![step(1)],
    });
    let (g, _diags) = lace_blocks(&blocks);
    assert_eq!(g.paths.len(), 1);
    assert_eq!(g.paths[0].name, b"s#1#chr1".to_vec());
}

#[test]
fn serializer_exact_output() {
    let mut g = CombinedGraph::new();
    let mut index = RangeIndex::new();
    let blocks = two_test_blocks();
    integrate_block(&mut g, &mut index, &blocks[0], 0);
    integrate_block(&mut g, &mut index, &blocks[1], 1);
    let diags = reconcile_all(&mut g, index);
    assert_eq!(diags.len(), 1);
    let out = write_graph_to_gfa(&g);
    let expected = b"H\tVN:Z:1.0\n\
        S\t1\tACGT\n\
        S\t2\tTT\n\
        S\t3\tGG\n\
        L\t1\t+\t2\t+\t0M\n\
        L\t2\t+\t3\t+\t0M\n\
        P\ts#1#chr1\t1+,2+,3+\t*\n"
        .to_vec();
    assert_eq!(out, expected);
}

#[test]
fn pipeline_runs_byte_identical() {
    let blocks = two_test_blocks();
    let (g1, _) = lace_blocks(&blocks);
    let (g2, _) = lace_blocks(&blocks);
    let out1 = write_graph_to_gfa(&g1);
    let out2 = write_graph_to_gfa(&g2);
    assert_eq!(out1, out2);
}

#[test]
fn paths_serialized_in_name_order() {
    let mut g = CombinedGraph::new();
    let ranges = vec![
        range(0, 10, 0, vec![step(1)]),
        range(20, 30, 0, vec![step(2)]),
        range(100, 110, 0, vec![step(3)]),
    ];
    let _ = reconcile_key(&mut g, b"k#0#c".to_vec(), ranges);
    // names are ordered lexicographically on the raw bytes:
    // "k#0#c:0-10" < "k#0#c:100-110" < "k#0#c:20-30"
    assert_eq!(g.paths.len(), 3);
    assert_eq!(g.paths[0].name, b"k#0#c:0-10".to_vec());
    assert_eq!(g.paths[1].name, b"k#0#c:100-110".to_vec());
    assert_eq!(g.paths[2].name, b"k#0#c:20-30".to_vec());
}

#[test]
fn lace_smoothed_blocks_copies_and_connects() {
    let blocks = vec![
        SmoothedBlock {
            nodes: vec![
                GraphNode {
                    id: 1,
                    seq: b"A".to_vec(),
                },
                GraphNode {
                    id: 2,
                    seq: b"C".to_vec(),
                },
            ],
            edges: vec![GraphEdge {
                from: step(1),
                to: step(2),
            }],
        },
        SmoothedBlock {
            nodes: vec![GraphNode {
                id: 5,
                seq: b"G".to_vec(),
            }],
            edges: vec![],
        },
    ];
    let paths = vec![PathRange {
        path_name: b"p1".to_vec(),
        steps: vec![
            LacePathStep {
                block_id: 0,
                node_id: 1,
            },
            LacePathStep {
                block_id: 0,
                node_id: 2,
            },
            LacePathStep {
                block_id: 1,
                node_id: 5,
            },
        ],
    }];
    let g = lace_smoothed_blocks(&blocks, &paths);
    let ids: Vec<u64> = g.nodes.iter().map(|n| n.id).collect();
    assert_eq!(ids, vec![1, 2, 5]);
    assert_eq!(g.paths.len(), 1);
    assert_eq!(g.paths[0].name, b"p1".to_vec());
    assert_eq!(g.paths[0].steps, vec![step(1), step(2), step(5)]);
    // the block edge is kept once; the connecting edge 2 -> 5 is derived
    assert_eq!(g.edges.len(), 2);
    assert!(g.has_edge(step(1), step(2)));
    assert!(g.has_edge(step(2), step(5)));
}
