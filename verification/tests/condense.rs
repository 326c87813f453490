use sbh::sbh_assembler::Assembler;

fn bytes(s: &str) -> Vec<u8> {
    s.as_bytes().to_vec()
}

fn with_contigs(contigs: Vec<&str>) -> Assembler {
    let mut ass = Assembler::new(Vec::new());
    ass.contigs = contigs.into_iter().map(bytes).collect();
    ass
}

#[test]
fn containment_scan_finds_substrings() {
    assert!(Assembler::is_contig_contains(&bytes("ACGTACGT"), &bytes("GTAC")));
    assert!(Assembler::is_contig_contains(&bytes("ACGTACGT"), &bytes("ACGTACGT")));
    assert!(Assembler::is_contig_contains(&bytes("ACGT"), &bytes("")));
    assert!(!Assembler::is_contig_contains(&bytes("ACGT"), &bytes("ACGTA")));
    assert!(!Assembler::is_contig_contains(&bytes("ACGTACGT"), &bytes("TGCA")));
}

#[test]
fn remove_contained_drops_substrings() {
    let mut ass = with_contigs(vec!["GTAC", "ACGTACGT", "CGT"]);
    let removed = ass.remove_contained_contigs();
    assert_eq!(removed, 2);
    assert_eq!(ass.contigs, vec![bytes("ACGTACGT")]);
}

#[test]
fn remove_contained_drops_duplicates_to_one() {
    let mut ass = with_contigs(vec!["ACGT", "ACGT"]);
    let removed = ass.remove_contained_contigs();
    assert_eq!(removed, 1);
    assert_eq!(ass.contigs.len(), 1);
    assert_eq!(ass.contigs[0], bytes("ACGT"));
}

#[test]
fn remove_contained_on_empty_collection() {
    let mut ass = with_contigs(vec![]);
    assert_eq!(ass.remove_contained_contigs(), 0);
    assert_eq!(ass.contigs.len(), 0);
}

#[test]
fn remove_contained_twice_is_noop() {
    let mut ass = with_contigs(vec!["GTAC", "ACGTACGT", "CGT", "TTTT"]);
    let first = ass.remove_contained_contigs();
    assert_eq!(first, 2);
    let survivors = ass.contigs.clone();
    let second = ass.remove_contained_contigs();
    assert_eq!(second, 0);
    assert_eq!(ass.contigs, survivors);
}

#[test]
fn overlap_scan_reports_first_qualifying_width() {
    let r = Assembler::merge_if_overlap(&bytes("AAACGT"), &bytes("CGTTTT"), 3);
    assert_eq!(r, Some((3, bytes("AAACGTTTT"))));
    let r = Assembler::merge_if_overlap(&bytes("AAACGT"), &bytes("CGTTTT"), 4);
    assert_eq!(r, None);
    // both widths 2 and 4 qualify; the smallest qualifying one wins
    let r = Assembler::merge_if_overlap(&bytes("AACGCG"), &bytes("CGCGTT"), 2);
    assert_eq!(r, Some((2, bytes("AACGCGCGTT"))));
}

#[test]
fn merge_joins_overlapping_pair() {
    let mut ass = with_contigs(vec!["AAACGT", "CGTTTT"]);
    let merged = ass.merge_contigs(3);
    assert_eq!(merged, 2);
    assert_eq!(ass.contigs, vec![bytes("AAACGTTTT")]);
    // the combined length is both lengths minus the chosen overlap
    assert_eq!(ass.contigs[0].len(), 6 + 6 - 3);
}

#[test]
fn merge_leaves_disjoint_contigs_alone() {
    let mut ass = with_contigs(vec!["AAAA", "CCCC"]);
    assert_eq!(ass.merge_contigs(2), 0);
    assert_eq!(ass.contigs.len(), 2);
}

#[test]
fn condense_reaches_a_fixed_point() {
    let mut ass = with_contigs(vec!["AAACGT", "CGTTTT", "ACG"]);
    ass.condense(3);
    assert_eq!(ass.contigs, vec![bytes("AAACGTTTT")]);
    ass.condense(3);
    assert_eq!(ass.contigs, vec![bytes("AAACGTTTT")]);
}

#[test]
fn end_to_end_single_repeated_chain() {
    let k0 = "AAAAAAAAAAAAAAA";
    let k1 = "CCCCCCCCCCCCCCC";
    let k2 = "GGGGGGGGGGGGGGG";
    let k3 = "TTTTTTTTTTTTTTT";
    let k4 = "ACACACACACACACA";
    let k5 = "GTGTGTGTGTGTGTG";
    let chain = [k0, k1, k2, k3, k4, k5];
    let mut reads = Vec::new();
    for w in chain.windows(2) {
        reads.push(bytes(&format!("{}{}", w[0], w[1])));
    }
    let mut ass = Assembler::new(reads);
    ass.populate_paths_or_cycles(sbh::sbh_assembler::PathType::Path);
    ass.populate_paths_or_cycles(sbh::sbh_assembler::PathType::Cycle);
    ass.paths_cycles_to_contigs();
    assert_eq!(ass.contigs.len(), 1);
    ass.condense(15);
    assert_eq!(ass.contigs.len(), 1);
    assert_eq!(ass.contigs[0].len(), 90);
}

#[test]
fn overlap_below_threshold_is_ignored() {
    // the shared run "GT" is one symbol short of the threshold
    let mut ass = with_contigs(vec!["AAAAGT", "GTCCCC"]);
    assert_eq!(ass.merge_contigs(3), 0);
    assert_eq!(ass.contigs.len(), 2);
}

#[test]
fn equal_length_distinct_contigs_all_survive() {
    let mut ass = with_contigs(vec!["ACGT", "TGCA", "GGCC"]);
    assert_eq!(ass.remove_contained_contigs(), 0);
    assert_eq!(ass.contigs.len(), 3);
}
