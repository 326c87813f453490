use vstd::prelude::*;
use vstd::arithmetic::div_mod::lemma_fundamental_div_mod_converse;
use crate::sbh_assembler::NodeType;

verus! {

/// Length of the k-mers the assembler works over.
pub const KMER_LEN: usize = 15;

/// Numeric value of one symbol: A=0, C=1, G=2, T=3; anything else maps to 4.
pub open spec fn sym_val(c: u8) -> int {
    if c == 65 {
        0
    } else if c == 67 {
        1
    } else if c == 71 {
        2
    } else if c == 84 {
        3
    } else {
        4
    }
}

/// A symbol is valid when it is one of A, C, G, T.
pub open spec fn valid_sym(c: u8) -> bool {
    sym_val(c) < 4
}

/// The symbol a base-4 digit decodes to.
pub open spec fn sym_char(v: int) -> u8 {
    if v == 0 {
        65
    } else if v == 1 {
        67
    } else if v == 2 {
        71
    } else {
        84
    }
}

/// Every symbol of the sequence is a valid alphabet symbol.
pub open spec fn valid_seq(s: Seq<u8>) -> bool {
    forall|i: int| 0 <= i < s.len() ==> valid_sym(s[i])
}

/// Base-4 little-endian integer encoding of a symbol sequence:
/// position i contributes sym_val(s[i]) * 4^i.
pub open spec fn encode_seq(s: Seq<u8>) -> int
    decreases s.len(),
{
    if s.len() == 0 {
        0
    } else {
        sym_val(s[0]) + 4 * encode_seq(s.drop_first())
    }
}

/// Base-4 little-endian decoding: emit key mod 4, then divide, `len` times.
pub open spec fn decode_seq(key: int, len: nat) -> Seq<u8>
    decreases len,
{
    if len == 0 {
        Seq::empty()
    } else {
        seq![sym_char(key % 4)] + decode_seq(key / 4, (len - 1) as nat)
    }
}

/// 4 to the n-th power.
pub open spec fn pow4(n: nat) -> int
    decreases n,
{
    if n == 0 {
        1
    } else {
        4 * pow4((n - 1) as nat)
    }
}

/// The k-mer window a call is about: the first KMER_LEN symbols of a read
/// (Prefix) or the last KMER_LEN (Suffix).
pub open spec fn kmer_window(s: Seq<u8>, t: NodeType) -> Seq<u8> {
    match t {
        NodeType::Prefix => s.take(KMER_LEN as int),
        NodeType::Suffix => s.skip(s.len() - KMER_LEN),
    }
}

/// A valid sequence encodes to a value in [0, 4^len).
pub proof fn lemma_encode_bounds(s: Seq<u8>)
    requires
        valid_seq(s),
    ensures
        0 <= encode_seq(s) < pow4(s.len()),
    decreases s.len(),
{
    if s.len() > 0 {
        let rest = s.drop_first();
        assert(forall|i: int| 0 <= i < rest.len() ==> rest[i] == s[i + 1]);
        lemma_encode_bounds(rest);
    }
}

/// pow4 never shrinks as the exponent grows.
pub proof fn lemma_pow4_monotone(m: nat, n: nat)
    requires
        m <= n,
    ensures
        pow4(m) <= pow4(n),
    decreases n,
{
    if m < n {
        lemma_pow4_monotone(m, (n - 1) as nat);
        assert(pow4((n - 1) as nat) >= 1) by {
            lemma_pow4_positive((n - 1) as nat);
        }
    }
}

/// pow4 is always positive.
pub proof fn lemma_pow4_positive(n: nat)
    ensures
        pow4(n) >= 1,
    decreases n,
{
    if n > 0 {
        lemma_pow4_positive((n - 1) as nat);
    }
}

/// Decoding the encoding of a valid sequence gives the sequence back.
pub proof fn lemma_codec_round_trip(s: Seq<u8>)
    requires
        valid_seq(s),
    ensures
        decode_seq(encode_seq(s), s.len()) == s,
    decreases s.len(),
{
    if s.len() == 0 {
        assert(decode_seq(encode_seq(s), s.len()) =~= s);
    } else {
        let rest = s.drop_first();
        assert(forall|i: int| 0 <= i < rest.len() ==> rest[i] == s[i + 1]);
        let e = encode_seq(s);
        lemma_encode_bounds(rest);
        lemma_fundamental_div_mod_converse(e, 4, encode_seq(rest), sym_val(s[0]));
        lemma_codec_round_trip(rest);
        assert(decode_seq(e, s.len()) =~= s);
    }
}

/// Convert a read to the integer key of its prefix or suffix k-mer.
pub fn vec2idx(read: &Vec<u8>, t: NodeType) -> (idx: u32)
    requires
        read@.len() >= KMER_LEN,
        valid_seq(kmer_window(read@, t)),
    ensures
        idx == encode_seq(kmer_window(read@, t)),
{
    let start: usize = match t {
        NodeType::Prefix => 0,
        NodeType::Suffix => read.len() - KMER_LEN,
    };
    let ghost win = kmer_window(read@, t);
    proof {
        assert(win.len() == KMER_LEN);
        assert(forall|j: int| 0 <= j < win.len() ==> win[j] == read@[start + j]);
    }
    let mut idx: u32 = 0;
    let mut i: usize = KMER_LEN;
    while i > 0
        invariant
            i <= KMER_LEN,
            start + KMER_LEN <= read@.len(),
            start + KMER_LEN <= usize::MAX,
            win == kmer_window(read@, t),
            win.len() == KMER_LEN,
            valid_seq(win),
            forall|j: int| 0 <= j < win.len() ==> win[j] == read@[start + j],
            idx == encode_seq(win.skip(i as int)),
        decreases i,
    {
        i = i - 1;
        let c = read[start + i];
        assert(c == win[i as int]);
        let v: u32 = match c {
            65 => 0,
            67 => 1,
            71 => 2,
            84 => 3,
            _ => {
                proof {
                    assert(false);
                }
                0
            },
        };
        proof {
            let tail = win.skip(i as int);
            assert(tail.drop_first() =~= win.skip(i + 1));
            assert(tail[0] == win[i as int]);
            assert(encode_seq(tail) == sym_val(win[i as int]) + 4 * encode_seq(win.skip(i + 1)));
            assert(valid_seq(win.skip(i + 1))) by {
                assert(forall|j: int|
                    0 <= j < win.skip(i + 1).len() ==> #[trigger] win.skip(i + 1)[j] == win[j + i
                        + 1]);
            }
            lemma_encode_bounds(win.skip(i + 1));
            assert(win.skip(i + 1).len() <= 14);
            lemma_pow4_monotone(win.skip(i + 1).len(), 14);
            assert(pow4(14) == 0x10000000) by {
                reveal_with_fuel(pow4, 15);
            }
        }
        idx = idx * 4 + v;
    }
    proof {
        assert(win.skip(0) =~= win);
    }
    idx
}

/// Convert an integer key back to a symbol sequence of the given length.
pub fn idx2vec(idx: u32, length: usize) -> (result: Vec<u8>)
    ensures
        result@ == decode_seq(idx as int, length as nat),
{
    let mut result: Vec<u8> = Vec::new();
    let mut cur: u32 = idx;
    let mut n: usize = 0;
    while n < length
        invariant
            n <= length,
            result@.len() == n,
            decode_seq(idx as int, length as nat) == result@ + decode_seq(
                cur as int,
                (length - n) as nat,
            ),
        decreases length - n,
    {
        let r = cur % 4;
        let c: u8 = match r {
            0 => 65,
            1 => 67,
            2 => 71,
            _ => 84,
        };
        proof {
            assert(c == sym_char(cur as int % 4));
            let m = (length - n) as nat;
            assert(decode_seq(cur as int, m) == seq![c] + decode_seq(
                cur as int / 4,
                (m - 1) as nat,
            ));
            assert(result@ + decode_seq(cur as int, m) =~= result@.push(c) + decode_seq(
                cur as int / 4,
                (m - 1) as nat,
            ));
        }
        result.push(c);
        cur = cur / 4;
        n = n + 1;
    }
    proof {
        assert(decode_seq(cur as int, 0) =~= Seq::<u8>::empty());
        assert(result@ + Seq::<u8>::empty() =~= result@);
    }
    result
}

/// Runtime check that a read is made of valid symbols only.
pub fn is_valid_read(read: &Vec<u8>) -> (r: bool)
    ensures
        r == valid_seq(read@),
{
    let mut i: usize = 0;
    while i < read.len()
        invariant
            i <= read@.len(),
            forall|j: int| 0 <= j < i ==> valid_sym(read@[j]),
        decreases read@.len() - i,
    {
        let c = read[i];
        if !(c == 65 || c == 67 || c == 71 || c == 84) {
            assert(!valid_sym(read@[i as int]));
            return false;
        }
        i = i + 1;
    }
    true
}

} // verus!
