use sbh::sbh_assembler::NodeType;
use sbh::utils::{idx2vec, is_valid_read, vec2idx, KMER_LEN};

fn bytes(s: &str) -> Vec<u8> {
    s.as_bytes().to_vec()
}

#[test]
fn encode_all_a_prefix_is_zero() {
    let read = bytes("AAAAAAAAAAAAAAAAAAAAAAAAAAAAAA");
    assert_eq!(read.len(), 30);
    assert_eq!(vec2idx(&read, NodeType::Prefix), 0);
    assert_eq!(vec2idx(&read, NodeType::Suffix), 0);
}

#[test]
fn encode_is_base4_little_endian() {
    // C in position 0 contributes 1 * 4^0
    let read = bytes("CAAAAAAAAAAAAAA");
    assert_eq!(vec2idx(&read, NodeType::Prefix), 1);
    // G in position 1 contributes 2 * 4^1
    let read = bytes("AGAAAAAAAAAAAAA");
    assert_eq!(vec2idx(&read, NodeType::Prefix), 8);
    // T in position 14 contributes 3 * 4^14
    let read = bytes("AAAAAAAAAAAAAAT");
    assert_eq!(vec2idx(&read, NodeType::Prefix), 3 * 4u32.pow(14));
}

#[test]
fn suffix_takes_last_fifteen() {
    let read = bytes("AAAAAAAAAAAAAAACAAAAAAAAAAAAAA");
    // suffix window is "CAAAAAAAAAAAAAA"
    assert_eq!(vec2idx(&read, NodeType::Suffix), 1);
    assert_eq!(vec2idx(&read, NodeType::Prefix), 0);
}

#[test]
fn decode_zero_is_all_a() {
    assert_eq!(idx2vec(0, 15), bytes("AAAAAAAAAAAAAAA"));
}

#[test]
fn decode_emits_least_significant_first() {
    assert_eq!(idx2vec(1, 3), bytes("CAA"));
    assert_eq!(idx2vec(2 + 3 * 4, 3), bytes("GTA"));
}

#[test]
fn codec_round_trip_length_fifteen() {
    let kmers = [
        "ACGTACGTACGTACG",
        "TTTTTTTTTTTTTTT",
        "GATTACAGATTACAG",
        "CCCCCCCCCCCCCCC",
        "ACGTTGCAACGTTGC",
    ];
    for s in kmers {
        let v = bytes(s);
        assert_eq!(v.len(), KMER_LEN);
        let idx = vec2idx(&v, NodeType::Prefix);
        assert_eq!(idx2vec(idx, KMER_LEN), v);
    }
}

#[test]
fn valid_read_check() {
    assert!(is_valid_read(&bytes("ACGT")));
    assert!(is_valid_read(&bytes("")));
    assert!(!is_valid_read(&bytes("ACGN")));
    assert!(!is_valid_read(&bytes("acgt")));
}
