use sbh::sbh_assembler::{Assembler, Node, NodeType, PathType};
use sbh::utils::vec2idx;

fn bytes(s: &str) -> Vec<u8> {
    s.as_bytes().to_vec()
}

fn read_of(a: &str, b: &str) -> Vec<u8> {
    assert_eq!(a.len(), 15);
    assert_eq!(b.len(), 15);
    let mut r = bytes(a);
    r.extend_from_slice(b.as_bytes());
    r
}

fn node_of(ass: &Assembler, kmer: &str) -> Node {
    let idx = vec2idx(&bytes(kmer), NodeType::Prefix);
    for n in ass.nodes.iter() {
        if n.idx == idx {
            return *n;
        }
    }
    panic!("no node for the given k-mer");
}

const K0: &str = "AAAAAAAAAAAAAAA";
const K1: &str = "CCCCCCCCCCCCCCC";
const K2: &str = "GGGGGGGGGGGGGGG";
const K3: &str = "TTTTTTTTTTTTTTT";
const K4: &str = "ACACACACACACACA";
const K5: &str = "GTGTGTGTGTGTGTG";

#[test]
fn single_self_loop_read() {
    let ass = Assembler::new(vec![bytes("AAAAAAAAAAAAAAAAAAAAAAAAAAAAAA")]);
    assert_eq!(ass.nodes.len(), 1);
    assert_eq!(ass.nodes[0].idx, 0);
    assert_eq!(ass.nodes[0].odeg, 1);
    assert_eq!(ass.nodes[0].ideg, 1);
    assert_eq!(ass.edges.len(), 1);
    assert!(!ass.edges[0].used);
}

#[test]
fn self_loop_cycle_below_threshold() {
    // a single all-A read closes a cycle of 2 nodes, below the threshold of 3
    let mut ass = Assembler::new(vec![bytes("AAAAAAAAAAAAAAAAAAAAAAAAAAAAAA")]);
    ass.populate_paths_or_cycles(PathType::Path);
    assert_eq!(ass.paths.len(), 0);
    ass.populate_paths_or_cycles(PathType::Cycle);
    assert_eq!(ass.cycles.len(), 0);
    // the cycle run consumed the self-loop edge even though the walk was
    // discarded, and the degree counters followed it down
    assert!(ass.edges[0].used);
    assert_eq!(ass.nodes[0].odeg, 0);
    assert_eq!(ass.nodes[0].ideg, 0);
    ass.paths_cycles_to_contigs();
    assert_eq!(ass.contigs.len(), 0);
}

#[test]
fn degree_counters_count_incident_edges() {
    let reads = vec![read_of(K0, K1), read_of(K0, K1), read_of(K1, K2)];
    let ass = Assembler::new(reads);
    assert_eq!(ass.nodes.len(), 3);
    let n0 = node_of(&ass, K0);
    assert_eq!((n0.odeg, n0.ideg), (2, 0));
    let n1 = node_of(&ass, K1);
    assert_eq!((n1.odeg, n1.ideg), (1, 2));
    let n2 = node_of(&ass, K2);
    assert_eq!((n2.odeg, n2.ideg), (0, 1));
    assert_eq!(ass.edges.len(), 3);
}

#[test]
fn two_chained_reads_give_no_retained_path() {
    // read1 suffix k-mer equals read2 prefix k-mer: the walk yields a path of
    // 3 nodes, below the retention threshold of 5
    let mut ass = Assembler::new(vec![read_of(K0, K1), read_of(K1, K2)]);
    ass.populate_paths_or_cycles(PathType::Path);
    assert_eq!(ass.paths.len(), 0);
}

#[test]
fn chain_of_five_reads_gives_one_path() {
    let reads = vec![
        read_of(K0, K1),
        read_of(K1, K2),
        read_of(K2, K3),
        read_of(K3, K4),
        read_of(K4, K5),
    ];
    let mut ass = Assembler::new(reads);
    ass.populate_paths_or_cycles(PathType::Path);
    assert_eq!(ass.paths.len(), 1);
    assert_eq!(ass.paths[0].len(), 6);
    // every edge was consumed once, so a second pass finds nothing new
    ass.populate_paths_or_cycles(PathType::Path);
    assert_eq!(ass.paths.len(), 1);
    for e in ass.edges.iter() {
        assert!(e.used);
    }
    for n in ass.nodes.iter() {
        assert_eq!(n.odeg, 0);
        assert_eq!(n.ideg, 0);
    }
}

#[test]
fn two_read_loop_gives_one_cycle() {
    let mut ass = Assembler::new(vec![read_of(K0, K1), read_of(K1, K0)]);
    ass.populate_paths_or_cycles(PathType::Cycle);
    assert_eq!(ass.cycles.len(), 1);
    assert_eq!(ass.cycles[0].len(), 3);
    assert_eq!(ass.cycles[0][0], ass.cycles[0][2]);
}

#[test]
fn contigs_concatenate_decoded_kmers() {
    let reads = vec![
        read_of(K0, K1),
        read_of(K1, K2),
        read_of(K2, K3),
        read_of(K3, K4),
        read_of(K4, K5),
    ];
    let mut ass = Assembler::new(reads);
    ass.populate_paths_or_cycles(PathType::Path);
    ass.paths_cycles_to_contigs();
    assert_eq!(ass.contigs.len(), 1);
    let expected = format!("{}{}{}{}{}{}", K0, K1, K2, K3, K4, K5);
    assert_eq!(ass.contigs[0], bytes(&expected));
}

#[test]
fn empty_input_yields_empty_output() {
    let mut ass = Assembler::new(Vec::new());
    assert_eq!(ass.nodes.len(), 0);
    assert_eq!(ass.edges.len(), 0);
    ass.populate_paths_or_cycles(PathType::Path);
    ass.populate_paths_or_cycles(PathType::Cycle);
    ass.paths_cycles_to_contigs();
    assert_eq!(ass.contigs.len(), 0);
    ass.condense(15);
    assert_eq!(ass.contigs.len(), 0);
}

#[test]
fn cycle_contig_repeats_the_start_kmer() {
    let mut ass = Assembler::new(vec![read_of(K0, K1), read_of(K1, K0)]);
    ass.populate_paths_or_cycles(PathType::Cycle);
    ass.paths_cycles_to_contigs();
    assert_eq!(ass.contigs.len(), 1);
    let expected = format!("{}{}{}", K0, K1, K0);
    assert_eq!(ass.contigs[0], expected.as_bytes().to_vec());
}

#[test]
fn short_walks_dropped_long_walks_kept() {
    // two disconnected chains: one six-node walk is retained, the two-node
    // walk from the second qualifying start is below the threshold
    let k6 = "TGTGTGTGTGTGTGT";
    let k7 = "AATAATAATAATAAT";
    let reads = vec![
        read_of(K0, K1),
        read_of(K1, K2),
        read_of(K2, K3),
        read_of(K3, K4),
        read_of(K4, K5),
        read_of(k6, k7),
    ];
    let mut ass = Assembler::new(reads);
    ass.populate_paths_or_cycles(PathType::Path);
    assert_eq!(ass.paths.len(), 1);
    assert_eq!(ass.paths[0].len(), 6);
    // both walks ran to exhaustion even though only one was kept
    for e in ass.edges.iter() {
        assert!(e.used);
    }
}
