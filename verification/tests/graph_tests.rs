//! Tests of the document model: construction, record parsing, traversal,
//! paths and topology analysis.
use tsg::{
    Exons, Group, GraphTopology, NodeData, PathAnalysis, StructuralVariant, TSGPath, TSGraph,
    TsgError,
};

fn v(s: &str) -> Vec<u8> {
    s.as_bytes().to_vec()
}

fn fields_of(parts: &[&str]) -> Vec<Vec<u8>> {
    parts.iter().map(|p| v(p)).collect()
}

#[test]
fn test_create_empty_graph() {
    let graph = TSGraph::new();
    assert_eq!(graph.headers.len(), 0);
    assert_eq!(graph.default_graph().unwrap().nodes().len(), 0);
    assert_eq!(graph.default_graph().unwrap().edges().len(), 0);
    assert_eq!(graph.graphs.len(), 1);
    assert_eq!(graph.links.len(), 0);
}

#[test]
fn test_add_node() {
    let mut graph = TSGraph::new();
    let node = NodeData::parse(&v("N\tnode1\tchr1:+:1-2\tr:SO")).unwrap();
    let gid = v("G.graph");
    graph.add_node_in(&gid, node).unwrap();
    assert_eq!(graph.graph(&gid).unwrap().nodes().len(), 1);
    assert_eq!(graph.node(&gid, &v("node1")).unwrap().id, v("node1"));
}

#[test]
fn test_add_edge() {
    let mut graph = TSGraph::new();
    let gid = v("G.graph");
    let node1 = NodeData::parse(&v("N\tnode1\tchr1:+:1-2\tr:SO")).unwrap();
    let node2 = NodeData::parse(&v("N\tnode2\tchr1:+:3-4\tr:SO")).unwrap();
    graph.add_node_in(&gid, node1).unwrap();
    graph.add_node_in(&gid, node2).unwrap();
    let sv = StructuralVariant::parse(&v("chr1,chr1,1000,5000,DEL")).unwrap();
    assert_eq!(sv.breakpoint1, 1000);
    assert_eq!(sv.breakpoint2, 5000);
    let edge = tsg::EdgeData {
        id: v("edge1"),
        sv,
        attributes: Vec::new(),
    };
    graph
        .add_edge_in(&gid, &v("node1"), &v("node2"), edge)
        .unwrap();
    assert_eq!(graph.graph(&gid).unwrap().edges().len(), 1);
    assert_eq!(graph.edge(&gid, &v("edge1")).unwrap().id, v("edge1"));
}

#[test]
fn test_parse_header_line() {
    let mut graph = TSGraph::new();
    let fields = fields_of(&["H", "VN", "1.0"]);
    graph.parse_header_line(&fields).unwrap();
    assert_eq!(graph.headers.len(), 1);
    assert_eq!(graph.headers[0].tag, v("VN"));
    assert_eq!(graph.headers[0].value, v("1.0"));
}

#[test]
fn test_parse_node_line() {
    let mut graph = TSGraph::new();
    let line = v("N\tnode1\tchr1:+:100-200\tread1:SO,read2:IN\tACGT");
    graph.parse_node_line(&line).unwrap();
    let gid = v("G.graph");
    let section = graph.graph(&gid).unwrap();
    let node = section.node_by_id(&v("node1")).unwrap();
    assert_eq!(node.id, v("node1"));
    assert_eq!(node.exons.exons.len(), 1);
    assert_eq!(node.exons.exons[0].start, 100);
    assert_eq!(node.exons.exons[0].end, 200);
    assert_eq!(node.reads.len(), 2);
    assert_eq!(node.reads[0].id, v("read1"));
    assert!(matches!(node.reads[0].identity, tsg::ReadIdentity::SO));
    assert_eq!(node.reads[1].id, v("read2"));
    assert!(matches!(node.reads[1].identity, tsg::ReadIdentity::IN));
    assert_eq!(node.sequence, Some(v("ACGT")));
}

#[test]
fn test_parse_unordered_group() {
    let mut graph = TSGraph::new();
    let fields = fields_of(&["U", "group1", "node1", "node2", "edge1"]);
    graph.parse_group_line(b'U', &fields).unwrap();
    let gid = v("G.graph");
    let section = graph.graph(&gid).unwrap();
    assert_eq!(section.groups.len(), 1);
    match &section.groups[0] {
        Group::Unordered { id, elements, .. } => {
            assert_eq!(id, &v("group1"));
            assert_eq!(elements.len(), 3);
            assert_eq!(elements[0], v("node1"));
            assert_eq!(elements[1], v("node2"));
            assert_eq!(elements[2], v("edge1"));
        }
        _ => panic!("expected an unordered group"),
    }
}

const FROM_STR_TEXT: &str = "H\tVN\t1.0\n    H\tPN\tTestGraph\n    N\tnode1\tchr1:+:100-200\tread1:SO,read2:IN\tACGT\n    N\tnode2\tchr1:+:300-400\tread1:SO,read2:IN\n    N\tnode3\tchr1:+:500-600\tread2:SO,read3:IN\n    E\tedge1\tnode1\tnode2\tchr1,chr1,1700,2000,INV\n    E\tedge2\tnode2\tnode3\tchr1,chr1,1700,2000,DUP\n    C\tchain1\tnode1 edge1 node2 edge2 node3\n";

#[test]
fn test_from_str() {
    let graph = TSGraph::from_text(&v(FROM_STR_TEXT)).unwrap();
    assert_eq!(graph.headers.len(), 2);
    assert_eq!(graph.headers[0].tag, v("VN"));
    assert_eq!(graph.headers[0].value, v("1.0"));
    assert_eq!(graph.headers[1].tag, v("PN"));
    assert_eq!(graph.headers[1].value, v("TestGraph"));
    let gid = v("G.graph");
    assert_eq!(graph.graph(&gid).unwrap().nodes().len(), 3);
    let node1 = graph.node(&gid, &v("node1")).unwrap();
    assert_eq!(node1.id, v("node1"));
    assert_eq!(node1.sequence, Some(v("ACGT")));
    assert_eq!(graph.graph(&gid).unwrap().edges().len(), 2);
    let edge1 = graph.edge(&gid, &v("edge1")).unwrap();
    assert_eq!(edge1.id, v("edge1"));
    let section = graph.graph(&gid).unwrap();
    match &section.chains[0] {
        Group::Chain { elements, .. } => {
            assert_eq!(elements.len(), 5);
            assert_eq!(elements[0], v("node1"));
            assert_eq!(elements[1], v("edge1"));
        }
        _ => panic!("expected a chain"),
    }
}

#[test]
fn test_path_creation_and_accessors() {
    let path = TSGPath::new();
    assert!(path.is_empty());
    assert_eq!(path.nodes.len(), 0);
    assert_eq!(path.edges.len(), 0);
    assert_eq!(path.len(), 0);
}

#[test]
fn test_exons_introns() {
    let exons = Exons::parse(&v("100-200,300-400,500-600")).unwrap();
    let introns = exons.introns();
    assert_eq!(introns.len(), 2);
    assert_eq!(introns[0].start, 201);
    assert_eq!(introns[0].end, 299);
    assert_eq!(introns[1].start, 401);
    assert_eq!(introns[1].end, 499);
}

#[test]
fn test_exons_len() {
    let exons = Exons::parse(&v("100-200,300-400,500-600")).unwrap();
    assert_eq!(exons.len(), 3);
}

#[test]
fn test_exons_span() {
    let exons = Exons::parse(&v("100-200,300-400,500-600")).unwrap();
    assert_eq!(exons.span(), Some(303));
}

#[test]
fn test_exons_first_last() {
    let exons = Exons::parse(&v("100-200,300-400,500-600")).unwrap();
    assert_eq!(exons.first_exon().start, 100);
    assert_eq!(exons.first_exon().end, 200);
    assert_eq!(exons.last_exon().start, 500);
    assert_eq!(exons.last_exon().end, 600);
}

#[test]
fn test_node_from_str() {
    let node1 = NodeData::parse(&v("N\tn1\tchr1:+:1000-2000\tread1:SO")).unwrap();
    assert_eq!(node1.id, v("n1"));
}

#[test]
fn test_node_reference_start_end() {
    let node = NodeData::parse(&v("N\tnode1\tchr1:+:100-200,300-400\tr:SO")).unwrap();
    assert_eq!(node.reference_start(), 100);
    assert_eq!(node.reference_end(), 400);
}

const CONNECTED_TEXT: &str = "H\tVN\t1.0\nH\tPN\tTestGraph\nN\tnode1\tchr1:+:100-200\tread1:SO,read2:IN\tACGT\nN\tnode2\tchr1:+:300-400\tread1:SO,read3:IN\nN\tnode3\tchr1:+:500-600\tread1:SO,read4:IN\nE\tedge1\tnode1\tnode2\tchr1,chr1,1700,2000,INV\nE\tedge2\tnode2\tnode3\tchr1,chr1,1700,2000,DUP\n";

const DISCONNECTED_TEXT: &str = "H\tVN\t1.0\nH\tPN\tTestGraph\nN\tnode1\tchr1:+:100-200\tread1:SO,read2:IN\tACGT\nN\tnode2\tchr1:+:300-400\tread1:SO,read3:IN\nN\tnode3\tchr1:+:500-600\tread1:SO,read4:IN\nE\tedge1\tnode1\tnode2\tchr1,chr1,1700,2000,INV\n";

#[test]
fn test_is_connected() {
    let tsgraph = TSGraph::from_text(&v(CONNECTED_TEXT)).unwrap();
    let graph = tsgraph.default_graph().unwrap();
    assert!(graph.is_connected().unwrap());

    let tsgraph = TSGraph::from_text(&v(DISCONNECTED_TEXT)).unwrap();
    let graph = tsgraph.default_graph().unwrap();
    assert!(!graph.is_connected().unwrap());
}

const CYCLIC_TEXT: &str = "H\tVN\t1.0\nH\tPN\tTestGraph\nN\tnode1\tchr1:+:100-200\tread1:SO,read2:IN\tACGT\nN\tnode2\tchr1:+:300-400\tread1:SO,read3:IN\nN\tnode3\tchr1:+:500-600\tread1:SO,read4:IN\nE\tedge1\tnode1\tnode2\tchr1,chr1,1700,2000,INV\nE\tedge2\tnode2\tnode3\tchr1,chr1,1700,2000,DUP\nE\tedge3\tnode3\tnode1\tchr1,chr1,1700,2000,DUP\n";

#[test]
fn test_is_cyclic() {
    let tsgraph = TSGraph::from_text(&v(CONNECTED_TEXT)).unwrap();
    let graph = tsgraph.default_graph().unwrap();
    assert!(!graph.is_cyclic().unwrap());

    let tsgraph = TSGraph::from_text(&v(CYCLIC_TEXT)).unwrap();
    let graph = tsgraph.default_graph().unwrap();
    assert!(graph.is_cyclic().unwrap());
}

const BUBBLE_TEXT: &str = "H\tVN\t1.0\nH\tPN\tTestGraph\nN\tnode1\tchr1:+:100-200\tread1:SO,read2:IN\tACGT\nN\tnode2\tchr1:+:300-400\tread1:SO,read3:IN\nN\tnode3\tchr1:+:500-600\tread1:SO,read4:IN\nN\tnode4\tchr1:+:700-800\tread1:SO,read5:IN\nE\tedge1\tnode1\tnode2\tchr1,chr1,1700,2000,INV\nE\tedge2\tnode2\tnode3\tchr1,chr1,1700,2000,DUP\nE\tedge3\tnode2\tnode4\tchr1,chr1,1700,2000,DUP\nE\tedge4\tnode3\tnode4\tchr1,chr1,1700,2000,INV\nE\tedge5\tnode1\tnode3\tchr1,chr1,1700,2000,INV\n";

#[test]
fn test_detect_bubbles() {
    let tsgraph = TSGraph::from_text(&v(BUBBLE_TEXT)).unwrap();
    let graph = tsgraph.default_graph().unwrap();
    assert!(graph.is_bubble().unwrap());

    let bubbles = graph.collect_bubbles().unwrap();
    assert!(!bubbles.is_empty(), "should detect at least one bubble");
    for (path1, path2) in &bubbles {
        assert_eq!(
            path1.first(),
            path2.first(),
            "paths should share a start node"
        );
        assert_eq!(path1.last(), path2.last(), "paths should share an end node");
        assert!(path1 != path2, "the two paths should differ");
    }

    let tsg_graph = TSGraph::from_text(&v(CONNECTED_TEXT)).unwrap();
    let graph = tsg_graph.default_graph().unwrap();
    assert!(
        !graph.is_bubble().unwrap(),
        "should not detect bubbles in a linear graph"
    );
}

#[test]
fn test_proper_bubble_detection() {
    let tsgraph = TSGraph::from_text(&v(BUBBLE_TEXT)).unwrap();
    let graph = tsgraph.default_graph().unwrap();
    let bubbles = graph.collect_bubbles().unwrap();
    assert_eq!(bubbles.len(), 3, "should detect exactly 3 bubbles");
}

const SUPER_COMMON_TEXT: &str = "H\tVN\t1.0\n        H\tPN\tTestGraph\n        N\tnode1\tchr1:+:100-200\tread1:SO,read2:IN\tACGT\n        N\tnode2\tchr1:+:300-400\tread1:SO,read2:IN\n        N\tnode3\tchr1:+:500-600\tread2:SO,read3:IN\n        E\tedge1\tnode1\tnode2\tchr1,chr1,1700,2000,INV\n        E\tedge2\tnode2\tnode3\tchr1,chr1,1700,2000,DUP\n";

#[test]
fn test_is_super_with_common_reads() {
    let tsgraph = TSGraph::from_text(&v(SUPER_COMMON_TEXT)).unwrap();
    let default_graph = tsgraph.default_graph().unwrap();
    let paths = default_graph.traverse().unwrap();
    for path in paths {
        assert!(path.is_super(default_graph).unwrap());
    }
}

const SUPER_DISJOINT_TEXT: &str = "H\tVN\t1.0\n        H\tPN\tTestGraph\n        N\tnode1\tchr1:+:100-200\tread1:SO\tACGT\n        N\tnode2\tchr1:+:300-400\tread2:SO\n        N\tnode3\tchr1:+:500-600\tread3:SO\n        E\tedge1\tnode1\tnode2\tchr1,chr1,1700,2000,INV\n        E\tedge2\tnode2\tnode3\tchr1,chr1,1700,2000,DUP\n";

#[test]
fn test_is_super_without_common_reads() {
    let tsgraph = TSGraph::from_text(&v(SUPER_DISJOINT_TEXT)).unwrap();
    let section = tsgraph.default_graph().unwrap();
    let paths = section.traverse().unwrap();
    for path in paths {
        assert!(path.is_super(section).unwrap());
    }
}

const SUPER_SINGLE_TEXT: &str =
    "H\tVN\t1.0\n        H\tPN\tTestGraph\n        N\tnode1\tchr1:+:100-200\tread1:SO,read2:IN\tACGT\n";

#[test]
fn test_is_super_with_single_node() {
    let tsgraph = TSGraph::from_text(&v(SUPER_SINGLE_TEXT)).unwrap();
    let section = tsgraph.default_graph().unwrap();
    let paths = section.traverse().unwrap();
    assert_eq!(paths[0].len(), 1);
    for path in paths {
        assert!(!path.is_super(section).unwrap());
    }
}

const SUPER_PARTIAL_TEXT: &str = "H\tVN\t1.0\n        H\tPN\tTestGraph\n        N\tnode1\tchr1:+:100-200\tread1:SO,read2:IN\tACGT\n        N\tnode2\tchr1:+:300-400\tread1:SO,read3:IN\n        N\tnode3\tchr1:+:500-600\tread1:SO,read4:IN\n        E\tedge1\tnode1\tnode2\tchr1,chr1,1700,2000,INV\n        E\tedge2\tnode2\tnode3\tchr1,chr1,1700,2000,DUP\n";

#[test]
fn test_is_super_partial_common_reads() {
    let tsgraph = TSGraph::from_text(&v(SUPER_PARTIAL_TEXT)).unwrap();
    let section = tsgraph.default_graph().unwrap();
    let paths = section.traverse().unwrap();
    assert_eq!(paths[0].len(), 3);
    for path in paths {
        assert!(path.is_super(section).unwrap());
    }
}

#[test]
fn test_read_continuity_rejection() {
    // n1 carries r1, n2 carries r2, n3 carries both with a pass-through
    // read, n4 carries r1: the n1-n3-n2 route shares no read across all
    // three nodes and must not appear, while n1-n3-n4 must.
    let text = "N\tn1\tchr1:+:1-2\tr1:SO\nN\tn2\tchr1:+:3-4\tr2:SO\nN\tn3\tchr1:+:5-6\tr1:IN,r2:IN\nN\tn4\tchr1:+:7-8\tr1:SI\nE\te1\tn1\tn3\tchr1,chr1,1,2,splice\nE\te2\tn3\tn2\tchr1,chr1,1,2,splice\nE\te3\tn3\tn4\tchr1,chr1,1,2,splice\n";
    let tsgraph = TSGraph::from_text(&v(text)).unwrap();
    let section = tsgraph.default_graph().unwrap();
    let n1 = section.node_index_of(&v("n1")).unwrap();
    let n2 = section.node_index_of(&v("n2")).unwrap();
    let n3 = section.node_index_of(&v("n3")).unwrap();
    let n4 = section.node_index_of(&v("n4")).unwrap();
    let paths = section.traverse().unwrap();
    let mut saw_n1_n3_n4 = false;
    for p in &paths {
        assert_ne!(p.nodes, vec![n1, n3, n2], "a path without a shared read");
        if p.nodes == vec![n1, n3, n4] {
            saw_n1_n3_n4 = true;
        }
    }
    assert!(saw_n1_n3_n4, "the supported route must be enumerated");
}

#[test]
fn test_traverse_shares_a_read() {
    let tsgraph = TSGraph::from_text(&v(SUPER_PARTIAL_TEXT)).unwrap();
    let section = tsgraph.default_graph().unwrap();
    let paths = section.traverse().unwrap();
    assert!(!paths.is_empty());
    for p in &paths {
        assert_eq!(p.nodes.len(), p.edges.len() + 1);
        // Some read identifier must occur on every node of the path.
        let first = &section.nodes[p.nodes[0]];
        let shared = first.reads.iter().any(|r| {
            p.nodes.iter().all(|&ni| {
                section.nodes[ni].reads.iter().any(|r2| r2.id == r.id)
            })
        });
        assert!(shared);
    }
}

#[test]
fn test_topology_classes() {
    // One source and one sink on a non-simple section: a unique path.
    let tsgraph = TSGraph::from_text(&v(SUPER_PARTIAL_TEXT)).unwrap();
    let section = tsgraph.default_graph().unwrap();
    assert!(matches!(
        section.topo().unwrap(),
        GraphTopology::UniquePath
    ));
    assert!(section.is_directed_acyclic_graph().unwrap());
}

#[test]
fn test_validate_rejects_missing_link_target() {
    let text = "G\tg1\nN\tn1\tchr1:+:1-2\tr1:SO\nL\tl1\tg1:n1\tg1:absent\tfusion\n";
    let r = TSGraph::from_text(&v(text));
    assert!(matches!(r, Err(TsgError::Validation(_))));
}

#[test]
fn test_duplicate_graph_rejected() {
    let text = "G\tg1\nN\tn1\tchr1:+:1-2\tr1:SO\nG\tg1\n";
    let r = TSGraph::from_text(&v(text));
    assert!(matches!(r, Err(TsgError::Duplicate(_))));
}

#[test]
fn test_malformed_node_rejected() {
    let text = "N\tn1\tchr1:+:nonsense\tr1:SO\n";
    let r = TSGraph::from_text(&v(text));
    assert!(matches!(r, Err(TsgError::InvalidRecord(_))));
}

#[test]
fn test_chain_even_length_rejected() {
    let text = "C\tc1\tn1 e1\n";
    let r = TSGraph::from_text(&v(text));
    assert!(matches!(r, Err(TsgError::InvalidRecord(_))));
}

#[test]
fn test_to_text_round_trips_through_parser() {
    // An explicitly named section round-trips through the writer and the
    // parser; the implicit section would collide with the parser's own.
    let text = "H\tVN\t1.0\nG\tg1\nN\tnode1\tchr1:+:100-200\tread1:SO\tACGT\nN\tnode2\tchr1:+:300-400\tread1:SI\nE\tedge1\tnode1\tnode2\tchr1,chr1,200,300,INV\n";
    let graph = TSGraph::from_text(&v(text)).unwrap();
    let out = graph.to_text();
    let again = TSGraph::from_text(&out).unwrap();
    let gid = v("g1");
    assert_eq!(again.graph(&gid).unwrap().nodes().len(), 2);
    assert_eq!(again.graph(&gid).unwrap().edges().len(), 1);
    // The writer adds its own program header.
    assert_eq!(again.headers.len(), 2);
}

#[test]
fn test_chain_nodes_order() {
    let graph = TSGraph::from_text(&v(FROM_STR_TEXT)).unwrap();
    let gid = v("G.graph");
    let section = graph.graph(&gid).unwrap();
    let chain = graph.chain_nodes(&gid, &v("chain1")).unwrap();
    assert_eq!(chain.len(), 3);
    assert_eq!(section.nodes[chain[0]].id, v("node1"));
    assert_eq!(section.nodes[chain[1]].id, v("node2"));
    assert_eq!(section.nodes[chain[2]].id, v("node3"));
    let chain_edges = graph.chain_edges(&gid, &v("chain1")).unwrap();
    assert_eq!(chain_edges.len(), 2);
    assert_eq!(section.edges[chain_edges[0]].data.id, v("edge1"));
    assert_eq!(section.edges[chain_edges[1]].data.id, v("edge2"));
}

#[test]
fn test_to_fa_and_to_gtf() {
    let text = "N\tn1\tchr1:+:100-200\tr1:SO\tACGT\nN\tn2\tchr1:+:300-400\tr1:SI\tTTTT\nE\te1\tn1\tn2\tchr1,chr1,200,300,splice\n";
    let graph = TSGraph::from_text(&v(text)).unwrap();
    let fa = tsg::to_fa(&graph).unwrap();
    let fa_text = String::from_utf8(fa).unwrap();
    assert!(fa_text.contains("ACGTTTTT"), "fa was: {fa_text}");
    assert!(fa_text.starts_with(">P."));
    let gtf = tsg::to_gtf(&graph).unwrap();
    let gtf_text = String::from_utf8(gtf).unwrap();
    assert!(gtf_text.contains("chr1\ttsg\texon\t100\t200\t.\t+\t.\texon_id \"001\""));
    assert!(gtf_text.contains("gene_id \"G.graph\""));
}

#[test]
fn test_hash_identifier_prefix() {
    // A known digest: the identifier of this text starts with the first
    // hex digits of its digest, `a` substituted when the first is a digit.
    let hash = tsg::to_hash_identifier(&v("Hello World!"), Some(16)).unwrap();
    assert_eq!(String::from_utf8(hash).unwrap(), "af83b1657ff1fc53");
}

#[test]
fn test_basic_hash() {
    let result = tsg::to_hash_identifier(&v("Hello World!"), Some(16)).unwrap();
    assert_eq!(result.len(), 16);
}

#[test]
fn test_starts_with_letter() {
    let result = tsg::to_hash_identifier(&v("Test123"), Some(8)).unwrap();
    assert!((result[0] as char).is_alphabetic());
}

#[test]
fn test_full_hash() {
    let result = tsg::to_hash_identifier(&v("Full hash test"), None).unwrap();
    assert_eq!(result.len(), 64);
}

#[test]
fn test_invalid_length() {
    let result = tsg::to_hash_identifier(&v("Invalid"), Some(0));
    assert!(result.is_err());
}
