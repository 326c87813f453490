use vstd::prelude::*;
use vstd::multiset::Multiset;
use crate::sbh_assembler::Assembler;
use rayon::iter::{IndexedParallelIterator, IntoParallelIterator, ParallelIterator};

verus! {

broadcast use vstd::seq_lib::group_to_multiset_ensures, vstd::multiset::group_multiset_axioms;

/// The contig collection as a sequence of symbol sequences.
pub open spec fn views(cs: Seq<Vec<u8>>) -> Seq<Seq<u8>> {
    Seq::new(cs.len(), |i: int| cs[i]@)
}

/// `small` occurs somewhere in `big` as an exact contiguous run of bytes.
pub open spec fn contains_seq(big: Seq<u8>, small: Seq<u8>) -> bool {
    exists|pos: int|
        0 <= pos && pos + small.len() <= big.len() && #[trigger] big.subrange(
            pos,
            pos + small.len(),
        ) == small
}

/// Every sequence contains itself.
pub proof fn lemma_contains_refl(s: Seq<u8>)
    ensures
        contains_seq(s, s),
{
    assert(s.subrange(0, 0int + s.len()) =~= s);
    assert(0 <= 0 && 0int + s.len() <= s.len() && s.subrange(0, 0int + s.len()) == s);
}

/// Containment between equal-length sequences forces equality.
pub proof fn lemma_contains_eq_len(a: Seq<u8>, b: Seq<u8>)
    requires
        contains_seq(a, b),
        a.len() == b.len(),
    ensures
        a == b,
{
    let pos = choose|pos: int|
        0 <= pos && pos + b.len() <= a.len() && #[trigger] a.subrange(pos, pos + b.len()) == b;
    assert(pos == 0);
    assert(a.subrange(0, a.len() as int) =~= a);
}

/// Containment composes: what occurs inside `b` occurs inside anything `b`
/// occurs inside of.
pub proof fn lemma_contains_trans(a: Seq<u8>, b: Seq<u8>, c: Seq<u8>)
    requires
        contains_seq(a, b),
        contains_seq(b, c),
    ensures
        contains_seq(a, c),
{
    let p = choose|p: int|
        0 <= p && p + b.len() <= a.len() && #[trigger] a.subrange(p, p + b.len()) == b;
    let q = choose|q: int|
        0 <= q && q + c.len() <= b.len() && #[trigger] b.subrange(q, q + c.len()) == c;
    assert(a.subrange(p + q, p + q + c.len()) =~= c) by {
        assert(forall|x: int|
            0 <= x < c.len() ==> a.subrange(p, p + b.len())[q + x] == #[trigger] a[p + q + x]);
        assert(forall|x: int| 0 <= x < c.len() ==> b.subrange(q, q + c.len())[x] == #[trigger] b[q
            + x]);
    }
}

/// Some contig of `out` holds `v` as an exact contiguous run.
pub open spec fn covered_by(out: Seq<Seq<u8>>, v: Seq<u8>) -> bool {
    exists|s: int| 0 <= s < out.len() && contains_seq(#[trigger] out[s], v)
}

/// Every contig of `inp` occurs, as an exact contiguous run, inside some
/// contig of `out`: the reduction dropped no sequence content.
pub open spec fn all_covered(inp: Seq<Seq<u8>>, out: Seq<Seq<u8>>) -> bool {
    forall|x: int| 0 <= x < inp.len() ==> covered_by(out, #[trigger] inp[x])
}

/// A value carried at least twice by the multiset sits at two distinct slots.
proof fn lemma_two_indices(s: Seq<Seq<u8>>, x: Seq<u8>)
    requires
        s.to_multiset().count(x) >= 2,
    ensures
        exists|i: int, j: int| 0 <= i < j < s.len() && #[trigger] s[i] == x && #[trigger] s[j] == x,
    decreases s.len(),
{
    assert(s.len() > 0) by {
        if s.len() == 0 {
            assert(s.to_multiset() =~= Multiset::<Seq<u8>>::empty());
        }
    }
    assert(s.drop_last().push(s.last()) =~= s);
    if s.last() == x {
        assert(s.drop_last().to_multiset().count(x) >= 1);
        assert(s.drop_last().contains(x));
        let i = choose|i: int| 0 <= i < s.drop_last().len() && s.drop_last()[i] == x;
        assert(0 <= i < s.len() - 1 && s[i] == x && s[s.len() - 1] == x);
    } else {
        lemma_two_indices(s.drop_last(), x);
        let (i, j) = choose|i: int, j: int|
            0 <= i < j < s.drop_last().len() && #[trigger] s.drop_last()[i] == x
                && #[trigger] s.drop_last()[j] == x;
        assert(0 <= i < j < s.len() && s[i] == x && s[j] == x);
    }
}

/// No two distinct slots hold contigs that overlap by a qualifying width in
/// either orientation.
pub open spec fn overlap_free(cs: Seq<Seq<u8>>, min_overlap: int) -> bool {
    forall|p: int, q: int|
        0 <= p < cs.len() && 0 <= q < cs.len() && p != q ==> merge_spec(
            #[trigger] cs[p],
            #[trigger] cs[q],
            min_overlap,
        ) is None
}

/// Freedom from qualifying overlaps only speaks of which contigs are present,
/// so it survives any reordering.
pub proof fn lemma_overlap_free_permutation(a: Seq<Seq<u8>>, b: Seq<Seq<u8>>, min_overlap: int)
    requires
        a.to_multiset() == b.to_multiset(),
        overlap_free(a, min_overlap),
    ensures
        overlap_free(b, min_overlap),
{
    assert forall|p: int, q: int|
        0 <= p < b.len() && 0 <= q < b.len() && p != q implies merge_spec(
        #[trigger] b[p],
        #[trigger] b[q],
        min_overlap,
    ) is None by {
        assert(b.contains(b[p]) && b.contains(b[q]));
        if b[p] == b[q] {
            assert(b.to_multiset().count(b[p]) >= 2) by {
                let s0 = b.subrange(0, if p < q {
                    q
                } else {
                    p
                });
                let s1 = b.subrange(
                    if p < q {
                        q
                    } else {
                        p
                    },
                    b.len() as int,
                );
                assert(b =~= s0 + s1);
                vstd::seq_lib::lemma_multiset_commutative(s0, s1);
                assert(s0.contains(b[p]) && s1.contains(b[q]));
            }
            lemma_two_indices(a, b[p]);
            let (i, j) = choose|i: int, j: int|
                0 <= i < j < a.len() && #[trigger] a[i] == b[p] && #[trigger] a[j] == b[p];
            assert(merge_spec(a[i], a[j], min_overlap) is None);
        } else {
            assert(a.to_multiset().count(b[p]) > 0 && a.to_multiset().count(b[q]) > 0);
            assert(a.contains(b[p]) && a.contains(b[q]));
            let i = choose|i: int| 0 <= i < a.len() && a[i] == b[p];
            let j = choose|j: int| 0 <= j < a.len() && a[j] == b[q];
            assert(i != j);
            assert(merge_spec(a[i], a[j], min_overlap) is None);
        }
    }
}

/// Equal collections as multisets cover each other: every contig is present,
/// and presence is containment in itself.
pub proof fn lemma_covered_of_multiset(a: Seq<Seq<u8>>, b: Seq<Seq<u8>>)
    requires
        a.to_multiset() == b.to_multiset(),
    ensures
        all_covered(a, b),
{
    assert forall|x: int| 0 <= x < a.len() implies covered_by(b, #[trigger] a[x]) by {
        assert(a.contains(a[x]));
        assert(b.to_multiset().count(a[x]) > 0);
        assert(b.contains(a[x]));
        let s = choose|s: int| 0 <= s < b.len() && b[s] == a[x];
        lemma_contains_refl(a[x]);
        assert(0 <= s < b.len() && contains_seq(b[s], a[x]));
    }
}

/// Coverage composes across two reductions run in sequence.
pub proof fn lemma_all_covered_trans(a: Seq<Seq<u8>>, b: Seq<Seq<u8>>, c: Seq<Seq<u8>>)
    requires
        all_covered(a, b),
        all_covered(b, c),
    ensures
        all_covered(a, c),
{
    assert forall|x: int| 0 <= x < a.len() implies covered_by(c, #[trigger] a[x]) by {
        assert(covered_by(b, a[x]));
        let sb = choose|sb: int| 0 <= sb < b.len() && contains_seq(#[trigger] b[sb], a[x]);
        assert(covered_by(c, b[sb]));
        let sc = choose|sc: int| 0 <= sc < c.len() && contains_seq(#[trigger] c[sc], b[sb]);
        lemma_contains_trans(c[sc], b[sb], a[x]);
        assert(0 <= sc < c.len() && contains_seq(c[sc], a[x]));
    }
}

/// A merge outcome's joined contig contains each of its two parents: the
/// earlier side as the head, the later side as the tail.
pub open spec fn parents_contained(r: Option<(int, Seq<u8>)>, c1: Seq<u8>, c2: Seq<u8>) -> bool {
    match r {
        Some((k, m)) => contains_seq(m, c1) && contains_seq(m, c2),
        None => true,
    }
}

/// Whatever join the overlap scan yields keeps both parents intact inside it.
pub proof fn lemma_merge_step_parents(c1: Seq<u8>, c2: Seq<u8>, min_overlap: int, k: int)
    requires
        1 <= k,
    ensures
        parents_contained(merge_step(c1, c2, min_overlap, k), c1, c2),
    decreases min_len(c1, c2) + 1 - k,
{
    if k > min_len(c1, c2) {
    } else if suffix_prefix_match(c2, c1, k) && k >= min_overlap {
        lemma_join_parents(c2, c1, k);
    } else if suffix_prefix_match(c1, c2, k) && k >= min_overlap {
        lemma_join_parents(c1, c2, k);
    } else {
        lemma_merge_step_parents(c1, c2, min_overlap, k + 1);
    }
}

/// The join of head and tail on a matched overlap of width `k` contains the
/// head as a prefix and the tail as a suffix.
proof fn lemma_join_parents(head: Seq<u8>, tail: Seq<u8>, k: int)
    requires
        suffix_prefix_match(head, tail, k),
    ensures
        contains_seq(head.subrange(0, head.len() - k) + tail, head),
        contains_seq(head.subrange(0, head.len() - k) + tail, tail),
{
    let m = head.subrange(0, head.len() - k) + tail;
    let cut = head.len() - k;
    assert(m.subrange(cut, cut + tail.len()) =~= tail);
    assert(0 <= cut && cut + tail.len() <= m.len() && m.subrange(cut, cut + tail.len()) == tail);
    assert(m.subrange(0, 0int + head.len()) =~= head) by {
        assert(forall|x: int|
            0 <= x < k ==> head.subrange(head.len() - k, head.len() as int)[x] == #[trigger] head[
            head.len() - k + x]);
        assert(forall|x: int|
            0 <= x < k ==> tail.subrange(0, k)[x] == #[trigger] tail[x]);
    }
    assert(0 <= 0 && 0int + head.len() <= m.len() && m.subrange(0, 0int + head.len()) == head);
}

/// The contig the overlap scan joins two contigs into, when it finds a
/// qualifying overlap.
pub open spec fn join_of(c1: Seq<u8>, c2: Seq<u8>, min_overlap: int) -> Seq<u8> {
    match merge_spec(c1, c2, min_overlap) {
        Some((k, m)) => m,
        None => Seq::empty(),
    }
}

/// One merge: two contigs present in `a` with a qualifying overlap leave, and
/// the scan's join of the two enters.
pub open spec fn merge_round(a: Multiset<Seq<u8>>, b: Multiset<Seq<u8>>, min_overlap: int) -> bool {
    exists|c1: Seq<u8>, c2: Seq<u8>|
        a.count(c1) > 0 && #[trigger] a.remove(c1).count(c2) > 0 && merge_spec(
            c1,
            c2,
            min_overlap,
        ) is Some && b == a.remove(c1).remove(c2).insert(join_of(c1, c2, min_overlap))
}

/// `b` arises from `a` by exactly `n` merges, each replacing two present
/// contigs by the scan's join of the two.
pub open spec fn merge_reachable(
    a: Multiset<Seq<u8>>,
    b: Multiset<Seq<u8>>,
    min_overlap: int,
    n: nat,
) -> bool
    decreases n,
{
    if n == 0 {
        a == b
    } else {
        exists|mid: Multiset<Seq<u8>>|
            #[trigger] merge_round(a, mid, min_overlap) && merge_reachable(
                mid,
                b,
                min_overlap,
                (n - 1) as nat,
            )
    }
}

/// A further merge extends a chain of merges by one.
proof fn lemma_reachable_snoc(
    a: Multiset<Seq<u8>>,
    b: Multiset<Seq<u8>>,
    c: Multiset<Seq<u8>>,
    min_overlap: int,
    n: nat,
)
    requires
        merge_reachable(a, b, min_overlap, n),
        merge_round(b, c, min_overlap),
    ensures
        merge_reachable(a, c, min_overlap, (n + 1) as nat),
    decreases n,
{
    if n == 0 {
        assert(merge_round(a, c, min_overlap));
        assert(merge_reachable(c, c, min_overlap, 0));
    } else {
        let mid = choose|mid: Multiset<Seq<u8>>|
            #[trigger] merge_round(a, mid, min_overlap) && merge_reachable(
                mid,
                b,
                min_overlap,
                (n - 1) as nat,
            );
        lemma_reachable_snoc(mid, b, c, min_overlap, (n - 1) as nat);
    }
}

/// Equal values at two slots put the value in the multiset at least twice.
proof fn lemma_count_two(s: Seq<Seq<u8>>, p: int, q: int)
    requires
        0 <= p < q < s.len(),
        s[p] == s[q],
    ensures
        s.to_multiset().count(s[p]) >= 2,
{
    let s0 = s.subrange(0, q);
    let s1 = s.subrange(q, s.len() as int);
    assert(s =~= s0 + s1);
    vstd::seq_lib::lemma_multiset_commutative(s0, s1);
    assert(s0.contains(s[p]) && s1.contains(s[q]));
}

/// Consuming slot `j` by moving the last element into it removes exactly one
/// instance of the slot's value from the multiset.
proof fn lemma_swap_remove_multiset(s: Seq<Seq<u8>>, j: int)
    requires
        0 <= j < s.len(),
    ensures
        s.update(j, s.last()).drop_last().to_multiset() == s.to_multiset().remove(s[j]),
{
    let n = s.len();
    if j == n - 1 {
        assert(s.update(j, s.last()).drop_last() =~= s.remove(j));
        assert(s.remove(j).to_multiset() =~= s.to_multiset().remove(s[j]));
    } else {
        let v1 = s.update(j, s.last()).drop_last();
        let s0 = s.subrange(0, j);
        let s2 = s.subrange(j + 1, n - 1);
        assert(v1 =~= s0 + (seq![s.last()] + s2));
        assert(s.remove(j) =~= s0 + (s2 + seq![s.last()]));
        vstd::seq_lib::lemma_multiset_commutative(s0, seq![s.last()] + s2);
        vstd::seq_lib::lemma_multiset_commutative(seq![s.last()], s2);
        vstd::seq_lib::lemma_multiset_commutative(s0, s2 + seq![s.last()]);
        vstd::seq_lib::lemma_multiset_commutative(s2, seq![s.last()]);
        assert(v1.to_multiset() =~= s.remove(j).to_multiset());
        assert(s.remove(j).to_multiset() =~= s.to_multiset().remove(s[j]));
    }
}

/// The pair of contigs at two distinct slots of the collection contain each
/// other in no direction.
pub open spec fn pairwise_free(cs: Seq<Seq<u8>>) -> bool {
    forall|p: int, q: int|
        0 <= p < cs.len() && 0 <= q < cs.len() && p != q ==> !contains_seq(
            #[trigger] cs[p],
            #[trigger] cs[q],
        )
}

/// Lengths never grow from one slot to a later one.
pub open spec fn sorted_len_desc(cs: Seq<Seq<u8>>) -> bool {
    forall|p: int, q: int| 0 <= p < q < cs.len() ==> (#[trigger] cs[p]).len() >= (#[trigger] cs[q]).len()
}

/// Shorter of the two lengths.
pub open spec fn min_len(c1: Seq<u8>, c2: Seq<u8>) -> int {
    if c1.len() <= c2.len() {
        c1.len() as int
    } else {
        c2.len() as int
    }
}

/// `a`'s suffix of length `k` equals `b`'s prefix of length `k`.
pub open spec fn suffix_prefix_match(a: Seq<u8>, b: Seq<u8>, k: int) -> bool {
    1 <= k <= a.len() && k <= b.len() && a.subrange(a.len() - k, a.len() as int) == b.subrange(
        0,
        k,
    )
}

/// Scan overlap widths upward from `k`: the first width at least
/// `min_overlap` on which either orientation matches wins, and the joined
/// contig keeps the earlier side's non-overlapping head.
pub open spec fn merge_step(c1: Seq<u8>, c2: Seq<u8>, min_overlap: int, k: int) -> Option<
    (int, Seq<u8>),
>
    decreases min_len(c1, c2) + 1 - k,
{
    if k < 1 || k > min_len(c1, c2) {
        None
    } else if suffix_prefix_match(c2, c1, k) && k >= min_overlap {
        Some((k, c2.subrange(0, c2.len() - k) + c1))
    } else if suffix_prefix_match(c1, c2, k) && k >= min_overlap {
        Some((k, c1.subrange(0, c1.len() - k) + c2))
    } else {
        merge_step(c1, c2, min_overlap, k + 1)
    }
}

/// What merging two contigs yields, if anything: the scan of merge_step
/// started at overlap width 1.
pub open spec fn merge_spec(c1: Seq<u8>, c2: Seq<u8>, min_overlap: int) -> Option<(int, Seq<u8>)> {
    merge_step(c1, c2, min_overlap, 1)
}

/// A merge outcome carrying width `k` within `[lo, hi]` whose joined contig
/// has the combined length minus the overlap.
pub open spec fn merge_result_ok(r: Option<(int, Seq<u8>)>, l1: int, l2: int, lo: int, hi: int) -> bool {
    match r {
        Some((k, m)) => lo <= k <= hi && m.len() == l1 + l2 - k,
        None => false,
    }
}

proof fn lemma_merge_step_finds(c1: Seq<u8>, c2: Seq<u8>, min_overlap: int, k: int, k0: int)
    requires
        1 <= min_overlap <= k0,
        k0 <= min_len(c1, c2),
        1 <= k <= k0,
        suffix_prefix_match(c2, c1, k0) || suffix_prefix_match(c1, c2, k0),
    ensures
        merge_result_ok(
            merge_step(c1, c2, min_overlap, k),
            c1.len() as int,
            c2.len() as int,
            min_overlap,
            k0,
        ),
    decreases k0 - k,
{
    if suffix_prefix_match(c2, c1, k) && k >= min_overlap {
        assert(c2.subrange(0, c2.len() - k).len() == c2.len() - k);
    } else if suffix_prefix_match(c1, c2, k) && k >= min_overlap {
        assert(c1.subrange(0, c1.len() - k).len() == c1.len() - k);
    } else {
        assert(k < k0);
        lemma_merge_step_finds(c1, c2, min_overlap, k + 1, k0);
    }
}

/// Whenever two contigs share a suffix/prefix run of at least the threshold
/// width, the merge finds some qualifying overlap, never wider than the given
/// one, and the joined contig's length is the two lengths minus the chosen
/// overlap width.
pub proof fn lemma_merge_overlap_len(c1: Seq<u8>, c2: Seq<u8>, min_overlap: int, k0: int)
    requires
        1 <= min_overlap <= k0,
        k0 <= min_len(c1, c2),
        suffix_prefix_match(c2, c1, k0) || suffix_prefix_match(c1, c2, k0),
    ensures
        merge_result_ok(
            merge_spec(c1, c2, min_overlap),
            c1.len() as int,
            c2.len() as int,
            min_overlap,
            k0,
        ),
{
    lemma_merge_step_finds(c1, c2, min_overlap, 1, k0);
}

/// Whether any qualifying overlap exists does not depend on the order the two
/// contigs are given in: the scan tests both orientations at every width.
pub proof fn lemma_merge_step_comm(c1: Seq<u8>, c2: Seq<u8>, min_overlap: int, k: int)
    ensures
        (merge_step(c1, c2, min_overlap, k) is None) == (merge_step(c2, c1, min_overlap, k)
            is None),
    decreases min_len(c1, c2) + 1 - k,
{
    if !(k < 1 || k > min_len(c1, c2)) {
        if suffix_prefix_match(c2, c1, k) && k >= min_overlap {
        } else if suffix_prefix_match(c1, c2, k) && k >= min_overlap {
        } else {
            lemma_merge_step_comm(c1, c2, min_overlap, k + 1);
        }
    }
}

/// Bytes `pos..pos+len(sub)` of `contig` spell out `sub`.
fn match_at(contig: &Vec<u8>, sub: &Vec<u8>, pos: usize) -> (r: bool)
    requires
        pos + sub@.len() <= contig@.len(),
        contig@.len() <= usize::MAX,
    ensures
        r == (contig@.subrange(pos as int, pos + sub@.len()) == sub@),
{
    let mut q: usize = 0;
    while q < sub.len()
        invariant
            pos + sub@.len() <= contig@.len(),
            contig@.len() <= usize::MAX,
            q <= sub@.len(),
            forall|x: int| 0 <= x < q ==> contig@[pos + x] == sub@[x],
        decreases sub@.len() - q,
    {
        if contig[pos + q] != sub[q] {
            proof {
                assert(contig@.subrange(pos as int, pos + sub@.len())[q as int] == contig@[pos
                    + q]);
            }
            return false;
        }
        q = q + 1;
    }
    proof {
        assert(contig@.subrange(pos as int, pos + sub@.len()) =~= sub@);
    }
    true
}

/// `a`'s suffix of width `k` equals `b`'s prefix of width `k`, byte for byte.
fn suffix_matches_prefix(a: &Vec<u8>, b: &Vec<u8>, k: usize) -> (r: bool)
    requires
        1 <= k,
        k <= a@.len(),
        k <= b@.len(),
    ensures
        r == suffix_prefix_match(a@, b@, k as int),
{
    let off = a.len() - k;
    let mut q: usize = 0;
    while q < k
        invariant
            q <= k,
            1 <= k <= a@.len(),
            a@.len() <= usize::MAX,
            k <= b@.len(),
            off == a@.len() - k,
            forall|x: int| 0 <= x < q ==> a@[off + x] == b@[x],
        decreases k - q,
    {
        if a[off + q] != b[q] {
            proof {
                assert(a@.subrange(a@.len() - k, a@.len() as int)[q as int] == a@[off + q]);
                assert(b@.subrange(0, k as int)[q as int] == b@[q as int]);
            }
            return false;
        }
        q = q + 1;
    }
    proof {
        assert(a@.subrange(a@.len() - k, a@.len() as int) =~= b@.subrange(0, k as int));
    }
    true
}

/// The head's bytes below its last `k`, followed by the whole tail.
fn join(head: &Vec<u8>, tail: &Vec<u8>, k: usize) -> (j: Vec<u8>)
    requires
        k <= head@.len(),
    ensures
        j@ == head@.subrange(0, head@.len() - k) + tail@,
{
    let mut j: Vec<u8> = Vec::new();
    let stop = head.len() - k;
    let mut q: usize = 0;
    while q < stop
        invariant
            q <= stop,
            stop == head@.len() - k,
            j@ == head@.subrange(0, q as int),
        decreases stop - q,
    {
        proof {
            assert(head@.subrange(0, q + 1) =~= head@.subrange(0, q as int).push(
                head@[q as int],
            ));
        }
        j.push(head[q]);
        q = q + 1;
    }
    j.extend_from_slice(tail.as_slice());
    proof {
        assert(j@ == head@.subrange(0, head@.len() - k) + tail@);
    }
    j
}

/// View of an executable merge outcome.
pub open spec fn merge_opt_view(r: Option<(usize, Vec<u8>)>) -> Option<(int, Seq<u8>)> {
    match r {
        Some((k, v)) => Some((k as int, v@)),
        None => None,
    }
}

impl Assembler {
    /// Brute-force containment scan: true exactly when `sub_contig` occurs in
    /// `contig` as a contiguous byte run.
    pub fn is_contig_contains(contig: &Vec<u8>, sub_contig: &Vec<u8>) -> (r: bool)
        ensures
            r == contains_seq(contig@, sub_contig@),
    {
        if contig.len() < sub_contig.len() {
            return false;
        }
        if sub_contig.len() == 0 {
            proof {
                assert(contig@.subrange(0, 0int + sub_contig@.len()) =~= sub_contig@);
                assert(0int + sub_contig@.len() <= contig@.len() && contig@.subrange(
                    0,
                    0int + sub_contig@.len(),
                ) == sub_contig@);
            }
            return true;
        }
        let limit = contig.len() - sub_contig.len();
        let mut pos: usize = 0;
        while pos <= limit
            invariant
                1 <= sub_contig@.len() <= contig@.len(),
                contig@.len() <= usize::MAX,
                limit == contig@.len() - sub_contig@.len(),
                pos <= limit + 1,
                forall|x: int|
                    0 <= x < pos ==> #[trigger] contig@.subrange(x, x + sub_contig@.len())
                        != sub_contig@,
            decreases limit + 1 - pos,
        {
            if match_at(contig, sub_contig, pos) {
                proof {
                    assert(contig@.subrange(pos as int, pos as int + sub_contig@.len())
                        == sub_contig@);
                }
                return true;
            }
            pos = pos + 1;
        }
        proof {
            assert(!contains_seq(contig@, sub_contig@)) by {
                if contains_seq(contig@, sub_contig@) {
                    let w = choose|w: int|
                        0 <= w && w + sub_contig@.len() <= contig@.len()
                            && #[trigger] contig@.subrange(w, w + sub_contig@.len())
                            == sub_contig@;
                    assert(w < pos);
                }
            }
        }
        false
    }

    /// First qualifying overlap between the two contigs, with the joined
    /// contig it yields, scanning widths from 1 upward as merge_spec does.
    pub fn merge_if_overlap(c1: &Vec<u8>, c2: &Vec<u8>, min_overlap_len: usize) -> (r: Option<
        (usize, Vec<u8>),
    >)
        ensures
            merge_opt_view(r) == merge_spec(c1@, c2@, min_overlap_len as int),
    {
        let bound = if c1.len() <= c2.len() {
            c1.len()
        } else {
            c2.len()
        };
        let mut i: usize = 0;
        while i < bound
            invariant
                i <= bound,
                bound == min_len(c1@, c2@),
                merge_spec(c1@, c2@, min_overlap_len as int) == merge_step(
                    c1@,
                    c2@,
                    min_overlap_len as int,
                    i + 1,
                ),
            decreases bound - i,
        {
            let k = i + 1;
            if suffix_matches_prefix(c2, c1, k) && k >= min_overlap_len {
                let joined = join(c2, c1, k);
                return Some((k, joined));
            }
            if suffix_matches_prefix(c1, c2, k) && k >= min_overlap_len {
                let joined = join(c1, c2, k);
                return Some((k, joined));
            }
            i = i + 1;
        }
        None
    }
}

/// Byte-for-byte copy of one contig.
fn copy_contig(v: &Vec<u8>) -> (c: Vec<u8>)
    ensures
        c@ == v@,
{
    let mut c: Vec<u8> = Vec::new();
    c.extend_from_slice(v.as_slice());
    proof {
        assert(Seq::<u8>::empty() + v@ =~= v@);
    }
    c
}

/// Sort the contigs by length, descending, keeping the collection the same
/// multiset of symbol sequences.
#[verifier::rlimit(50)]
fn sort_by_len_desc(cs: &mut Vec<Vec<u8>>)
    ensures
        final(cs)@.len() == old(cs)@.len(),
        sorted_len_desc(views(final(cs)@)),
        views(final(cs)@).to_multiset() == views(old(cs)@).to_multiset(),
        sorted_len_desc(views(old(cs)@)) ==> views(final(cs)@) == views(old(cs)@),
{
    let ghost orig = views(old(cs)@);
    let mut out: Vec<Vec<u8>> = Vec::new();
    proof {
        assert(views(out@) =~= Seq::<Seq<u8>>::empty());
        assert(views(out@).to_multiset().add(views(cs@).to_multiset()) =~= orig.to_multiset());
    }
    while cs.len() > 0
        invariant
            out@.len() + cs@.len() == orig.len(),
            views(out@).to_multiset().add(views(cs@).to_multiset()) == orig.to_multiset(),
            sorted_len_desc(views(out@)),
            forall|p: int, q: int|
                0 <= p < out@.len() && 0 <= q < cs@.len() ==> (#[trigger] out@[p])@.len()
                    >= (#[trigger] cs@[q])@.len(),
            sorted_len_desc(orig) ==> views(out@) == orig.take(out@.len() as int) && views(cs@)
                == orig.skip(out@.len() as int),
        decreases cs@.len(),
    {
        proof {
            if sorted_len_desc(orig) {
                // a suffix of a sorted collection is sorted, so the first
                // remaining contig is already a longest one
                assert(forall|p: int, q: int|
                    0 <= p < q < views(cs@).len() ==> (#[trigger] views(cs@)[p]).len()
                        >= (#[trigger] views(cs@)[q]).len());
            }
        }
        let mut m: usize = 0;
        let mut j: usize = 1;
        while j < cs.len()
            invariant
                cs@.len() >= 1,
                1 <= j <= cs@.len(),
                m < j,
                forall|x: int| 0 <= x < j ==> (#[trigger] cs@[x])@.len() <= cs@[m as int]@.len(),
                sorted_len_desc(views(cs@)) ==> m == 0,
            decreases cs@.len() - j,
        {
            if cs[j].len() > cs[m].len() {
                proof {
                    if sorted_len_desc(views(cs@)) {
                        assert(views(cs@)[m as int].len() >= views(cs@)[j as int].len());
                        assert(false);
                    }
                }
                m = j;
            }
            j = j + 1;
        }
        let ghost cs_old = cs@;
        let ghost out_old = out@;
        let ghost v = views(cs_old)[m as int];
        let x = cs.remove(m);
        out.push(x);
        proof {
            assert(x@ == v);
            assert(views(cs@) =~= views(cs_old).remove(m as int));
            assert(views(out@) =~= views(out_old).push(v));
            assert(views(cs_old).contains(v)) by {
                assert(views(cs_old)[m as int] == v);
            }
            assert(views(cs_old).to_multiset().count(v) > 0);
            assert(views(out@).to_multiset() =~= views(out_old).to_multiset().insert(v));
            assert(views(cs@).to_multiset() =~= views(cs_old).to_multiset().remove(v));
            assert(views(out@).to_multiset().add(views(cs@).to_multiset())
                =~= orig.to_multiset());
            assert(sorted_len_desc(views(out@))) by {
                assert(forall|p: int|
                    0 <= p < out_old.len() ==> views(out@)[p] == (#[trigger] out_old[p])@);
            }
            if sorted_len_desc(orig) {
                assert(m == 0);
                assert(views(out@) =~= orig.take(out@.len() as int));
                assert(views(cs@) =~= orig.skip(out@.len() as int));
            }
        }
    }
    proof {
        assert(views(cs@) =~= Seq::<Seq<u8>>::empty());
        assert(views(out@).to_multiset().add(views(cs@).to_multiset())
            =~= views(out@).to_multiset());
        if sorted_len_desc(orig) {
            assert(views(out@) =~= orig);
        }
    }
    *cs = out;
}

/// A containment-free collection stays containment-free under any reordering:
/// the property only speaks of which sequences are present.
pub proof fn lemma_free_permutation(a: Seq<Seq<u8>>, b: Seq<Seq<u8>>)
    requires
        a.to_multiset() == b.to_multiset(),
        pairwise_free(a),
    ensures
        pairwise_free(b),
{
    assert(a.no_duplicates()) by {
        assert forall|p: int, q: int|
            0 <= p < a.len() && 0 <= q < a.len() && p != q implies a[p] != a[q] by {
            if a[p] == a[q] {
                lemma_contains_refl(a[p]);
            }
        }
    }
    a.lemma_multiset_has_no_duplicates();
    b.lemma_multiset_has_no_duplicates_conv();
    assert forall|p: int, q: int|
        0 <= p < b.len() && 0 <= q < b.len() && p != q implies !contains_seq(
        #[trigger] b[p],
        #[trigger] b[q],
    ) by {
        assert(b[p] != b[q]);
        assert(b.contains(b[p]) && b.contains(b[q]));
        assert(a.to_multiset().count(b[p]) > 0 && a.to_multiset().count(b[q]) > 0);
        assert(a.contains(b[p]) && a.contains(b[q]));
        let ip = choose|ip: int| 0 <= ip < a.len() && a[ip] == b[p];
        let iq = choose|iq: int| 0 <= iq < a.len() && a[iq] == b[q];
        assert(ip != iq);
        assert(!contains_seq(a[ip], a[iq]));
    }
}

/// A marked slot's contig sits inside an earlier, strictly longer contig, or
/// equals a later slot's contig — what the two marking branches record.
spec fn mark_reason(cs: Seq<Seq<u8>>, t: int) -> bool {
    exists|a: int|
        0 <= a < cs.len() && ((a < t && (#[trigger] cs[a]).len() > cs[t].len() && contains_seq(
            cs[a],
            cs[t],
        )) || (t < a && cs[a] == cs[t]))
}

/// Following mark reasons upward — to a strictly longer contig or to a later
/// equal one — always ends at an unmarked slot that contains the marked
/// contig: only redundant content is ever marked.
proof fn lemma_container_exists(cs: Seq<Seq<u8>>, marked: Seq<bool>, t: int)
    requires
        marked.len() == cs.len(),
        0 <= t < cs.len(),
        sorted_len_desc(cs),
        forall|x: int| 0 <= x < cs.len() && #[trigger] marked[x] ==> mark_reason(cs, x),
        marked[t],
    ensures
        exists|u: int| 0 <= u < cs.len() && !marked[u] && contains_seq(#[trigger] cs[u], cs[t]),
    decreases cs[0].len() + 1 - cs[t].len(), cs.len() - t,
{
    let a = choose|a: int|
        0 <= a < cs.len() && ((a < t && (#[trigger] cs[a]).len() > cs[t].len() && contains_seq(
            cs[a],
            cs[t],
        )) || (t < a && cs[a] == cs[t]));
    lemma_contains_refl(cs[t]);
    if !marked[a] {
        assert(contains_seq(cs[a], cs[t]));
    } else {
        lemma_container_exists(cs, marked, a);
        let u = choose|u: int|
            0 <= u < cs.len() && !marked[u] && contains_seq(#[trigger] cs[u], cs[a]);
        lemma_contains_trans(cs[u], cs[a], cs[t]);
    }
}

/// Both contigs of a distinct pair of slots survive only if neither is a
/// substring of the other's longer-or-equal partner, in the order checked.
spec fn pair_ok(cs: Seq<Seq<u8>>, p: int, q: int) -> bool {
    &&& !(cs[p].len() > cs[q].len() && contains_seq(cs[p], cs[q]))
    &&& !contains_seq(cs[q], cs[p])
}

/// Relies on rayon's IndexedParallelIterator: a range's `into_par_iter().map(..)
/// .collect()` yields one result per index, in index order. The closure only
/// calls the verified containment scan, in both directions.
#[verifier::external_body]
fn par_containment_row(contigs: &Vec<Vec<u8>>, i: usize) -> (row: Vec<(bool, bool)>)
    requires
        i < contigs@.len(),
    ensures
        row@.len() == contigs@.len() - i - 1,
        forall|t: int|
            0 <= t < row@.len() ==> (#[trigger] row@[t]).0 == contains_seq(
                contigs@[i as int]@,
                contigs@[i + 1 + t]@,
            ) && row@[t].1 == contains_seq(contigs@[i + 1 + t]@, contigs@[i as int]@),
{
    ((i + 1)..contigs.len()).into_par_iter().map(
        |j|
            (
                Assembler::is_contig_contains(&contigs[i], &contigs[j]),
                Assembler::is_contig_contains(&contigs[j], &contigs[i]),
            ),
    ).collect()
}

/// Relies on rayon's IndexedParallelIterator exactly as par_containment_row
/// does; the closure only calls the verified overlap scan.
#[verifier::external_body]
fn par_merge_candidates(contigs: &Vec<Vec<u8>>, i: usize, min_overlap: usize) -> (row: Vec<
    Option<(usize, Vec<u8>)>,
>)
    requires
        i < contigs@.len(),
    ensures
        row@.len() == contigs@.len() - i - 1,
        forall|t: int|
            0 <= t < row@.len() ==> merge_opt_view(#[trigger] row@[t]) == merge_spec(
                contigs@[i as int]@,
                contigs@[i + 1 + t]@,
                min_overlap as int,
            ),
{
    ((i + 1)..contigs.len()).into_par_iter().map(
        |j| Assembler::merge_if_overlap(&contigs[i], &contigs[j], min_overlap),
    ).collect()
}

/// The containment checks of one marking row, applied: slot `i` against every
/// later slot, skipping already-marked slots, marking the shorter contained
/// partner, and abandoning the row as soon as slot `i` itself is marked.
#[verifier::rlimit(50)]
fn mark_row(contigs: &Vec<Vec<u8>>, marked: &mut Vec<bool>, i: usize)
    requires
        i < contigs@.len(),
        old(marked)@.len() == contigs@.len(),
        sorted_len_desc(views(contigs@)),
    ensures
        final(marked)@.len() == old(marked)@.len(),
        forall|t: int| 0 <= t < old(marked)@.len() ==> (old(marked)@[t] ==> final(marked)@[t]),
        forall|t: int|
            0 <= t < old(marked)@.len() && final(marked)@[t] && !old(marked)@[t] ==> mark_reason(
                views(contigs@),
                t,
            ),
        forall|q: int|
            i < q < contigs@.len() && !final(marked)@[i as int] && !final(marked)@[q] ==> pair_ok(
                views(contigs@),
                i as int,
                q,
            ),
{
    let row = par_containment_row(contigs, i);
    let n = contigs.len();
    let ghost m0 = marked@;
    let mut j: usize = i + 1;
    while j < n
        invariant
            i < n,
            n == contigs@.len(),
            sorted_len_desc(views(contigs@)),
            marked@.len() == n,
            row@.len() == n - i - 1,
            forall|t: int|
                0 <= t < row@.len() ==> (#[trigger] row@[t]).0 == contains_seq(
                    views(contigs@)[i as int],
                    views(contigs@)[i + 1 + t],
                ) && row@[t].1 == contains_seq(views(contigs@)[i + 1 + t], views(contigs@)[i as int]),
            i + 1 <= j <= n,
            forall|t: int| 0 <= t < n ==> (m0[t] ==> marked@[t]),
            forall|t: int|
                0 <= t < n && marked@[t] && !m0[t] ==> mark_reason(views(contigs@), t),
            forall|q: int|
                i < q < j && !marked@[i as int] && !marked@[q] ==> pair_ok(
                    views(contigs@),
                    i as int,
                    q,
                ),
        ensures
            marked@.len() == n,
            forall|t: int| 0 <= t < n ==> (m0[t] ==> marked@[t]),
            forall|t: int|
                0 <= t < n && marked@[t] && !m0[t] ==> mark_reason(views(contigs@), t),
            forall|q: int|
                i < q < n && !marked@[i as int] && !marked@[q] ==> pair_ok(
                    views(contigs@),
                    i as int,
                    q,
                ),
        decreases n - j,
    {
        if !marked[i] && !marked[j] {
            let pair = row[j - i - 1];
            proof {
                assert(views(contigs@)[i + 1 + (j - i - 1)] == views(contigs@)[j as int]);
            }
            if contigs[i].len() > contigs[j].len() && pair.0 {
                marked[j] = true;
                proof {
                    assert(mark_reason(views(contigs@), j as int)) by {
                        assert(0 <= i < views(contigs@).len() && (i as int) < (j as int)
                            && views(contigs@)[i as int].len() > views(contigs@)[j as int].len()
                            && contains_seq(views(contigs@)[i as int], views(contigs@)[j as int]));
                    }
                }
            } else if pair.1 {
                marked[i] = true;
                proof {
                    // the container is no longer than the contained contig, so
                    // the two are equal: record the later equal slot
                    let ci = views(contigs@)[i as int];
                    let cj = views(contigs@)[j as int];
                    assert(contains_seq(cj, ci));
                    assert(ci.len() <= cj.len()) by {
                        let pos = choose|pos: int|
                            0 <= pos && pos + ci.len() <= cj.len() && #[trigger] cj.subrange(
                                pos,
                                pos + ci.len(),
                            ) == ci;
                    }
                    lemma_contains_eq_len(cj, ci);
                    assert(mark_reason(views(contigs@), i as int)) by {
                        assert(0 <= j < views(contigs@).len() && (i as int) < (j as int)
                            && views(contigs@)[j as int] == views(contigs@)[i as int]);
                    }
                }
                break ;
            } else {
                proof {
                    assert(pair_ok(views(contigs@), i as int, j as int));
                }
            }
        }
        j = j + 1;
    }
}

impl Assembler {
    /// Drop every contig that occurs inside another contig as an exact
    /// substring: sort by length descending, mark the contained partner of
    /// every surviving pair, and keep the unmarked contigs. Returns how many
    /// were dropped. On a collection already free of containments this is a
    /// no-op that drops nothing.
    #[verifier::rlimit(100)]
    pub fn remove_contained_contigs(&mut self) -> (removed: usize)
        ensures
            final(self).nodes@ == old(self).nodes@,
            final(self).edges@ == old(self).edges@,
            final(self).paths@ == old(self).paths@,
            final(self).cycles@ == old(self).cycles@,
            pairwise_free(views(final(self).contigs@)),
            sorted_len_desc(views(final(self).contigs@)),
            all_covered(views(old(self).contigs@), views(final(self).contigs@)),
            final(self).contigs@.len() + removed == old(self).contigs@.len(),
            views(final(self).contigs@).to_multiset().subset_of(
                views(old(self).contigs@).to_multiset(),
            ),
            pairwise_free(views(old(self).contigs@)) ==> removed == 0,
            pairwise_free(views(old(self).contigs@)) && sorted_len_desc(
                views(old(self).contigs@),
            ) ==> views(final(self).contigs@) == views(old(self).contigs@),
    {
        sort_by_len_desc(&mut self.contigs);
        let ghost sorted0 = views(self.contigs@);
        proof {
            if pairwise_free(views(old(self).contigs@)) {
                lemma_free_permutation(views(old(self).contigs@), sorted0);
            }
        }
        let n = self.contigs.len();
        let mut marked: Vec<bool> = Vec::new();
        while marked.len() < n
            invariant
                marked@.len() <= n,
                forall|t: int| 0 <= t < marked@.len() ==> !marked@[t],
            decreases n - marked@.len(),
        {
            marked.push(false);
        }
        let ghost contigs_sorted = self.contigs@;
        let mut i: usize = 0;
        while i < n
            invariant
                n == self.contigs@.len(),
                self.contigs@ == contigs_sorted,
                sorted0 == views(contigs_sorted),
                sorted_len_desc(sorted0),
                marked@.len() == n,
                i <= n,
                forall|p: int, q: int|
                    0 <= p < i && p < q < n && !marked@[p] && !marked@[q] ==> pair_ok(
                        sorted0,
                        p,
                        q,
                    ),
                forall|x: int| 0 <= x < n && #[trigger] marked@[x] ==> mark_reason(sorted0, x),
                pairwise_free(sorted0) ==> forall|t: int| 0 <= t < n ==> !marked@[t],
            decreases n - i,
        {
            let ghost m_before = marked@;
            if !marked[i] {
                mark_row(&self.contigs, &mut marked, i);
                proof {
                    if pairwise_free(sorted0) {
                        assert forall|t: int| 0 <= t < n implies !marked@[t] by {
                            if marked@[t] && !m_before[t] {
                                assert(mark_reason(sorted0, t));
                                let a = choose|a: int|
                                    0 <= a < sorted0.len() && ((a < t && (
                                    #[trigger] sorted0[a]).len() > sorted0[t].len()
                                        && contains_seq(sorted0[a], sorted0[t])) || (t < a
                                        && sorted0[a] == sorted0[t]));
                                if t < a {
                                    lemma_contains_refl(sorted0[t]);
                                    assert(contains_seq(sorted0[a], sorted0[t]));
                                }
                            }
                        }
                    }
                }
            }
            proof {
                assert forall|p: int, q: int|
                    0 <= p < i + 1 && p < q < n && !marked@[p] && !marked@[q] implies pair_ok(
                    sorted0,
                    p,
                    q,
                ) by {
                    if p < i {
                        assert(!m_before[p] && !m_before[q]);
                    }
                }
            }
            i = i + 1;
        }
        // keep the unmarked contigs, in order
        let mut survivors: Vec<Vec<u8>> = Vec::new();
        let mut removed: usize = 0;
        let mut t: usize = 0;
        let ghost mut wit: Seq<int> = Seq::empty();
        let ghost mut slot: Seq<int> = Seq::empty();
        proof {
            assert(views(survivors@) =~= Seq::<Seq<u8>>::empty());
            assert(sorted0.take(0) =~= Seq::<Seq<u8>>::empty());
        }
        while t < n
            invariant
                t <= n,
                n == self.contigs@.len(),
                self.contigs@ == contigs_sorted,
                sorted0 == views(contigs_sorted),
                sorted_len_desc(sorted0),
                marked@.len() == n,
                forall|p: int, q: int|
                    0 <= p < q < n && !marked@[p] && !marked@[q] ==> pair_ok(sorted0, p, q),
                survivors@.len() + removed == t,
                wit.len() == survivors@.len(),
                forall|s: int|
                    0 <= s < wit.len() ==> 0 <= #[trigger] wit[s] < t && !marked@[wit[s]] && views(
                        survivors@,
                    )[s] == sorted0[wit[s]],
                forall|s1: int, s2: int| 0 <= s1 < s2 < wit.len() ==> wit[s1] < wit[s2],
                slot.len() == t,
                forall|p: int|
                    0 <= p < t && !marked@[p] ==> 0 <= #[trigger] slot[p] < wit.len()
                        && wit[slot[p]] == p,
                sorted_len_desc(views(survivors@)),
                forall|x: int| 0 <= x < n && #[trigger] marked@[x] ==> mark_reason(sorted0, x),
                pairwise_free(views(survivors@)),
                views(survivors@).to_multiset().subset_of(sorted0.take(t as int).to_multiset()),
                (pairwise_free(sorted0) ==> forall|u: int| 0 <= u < n ==> !marked@[u]),
                (pairwise_free(sorted0) ==> removed == 0),
                ((forall|u: int| 0 <= u < n ==> !marked@[u]) ==> views(survivors@) == sorted0.take(
                    t as int,
                )),
            decreases n - t,
        {
            let ghost surv_old = views(survivors@);
            proof {
                assert(sorted0.take(t + 1) =~= sorted0.take(t as int).push(sorted0[t as int]));
            }
            if marked[t] {
                removed = removed + 1;
                proof {
                    slot = slot.push(-1);
                    assert(views(survivors@).to_multiset().subset_of(
                        sorted0.take(t + 1).to_multiset(),
                    ));
                }
            } else {
                let c = copy_contig(&self.contigs[t]);
                survivors.push(c);
                proof {
                    wit = wit.push(t as int);
                    slot = slot.push(wit.len() - 1);
                    assert(views(survivors@) =~= surv_old.push(sorted0[t as int]));
                    assert(sorted_len_desc(views(survivors@))) by {
                        assert(forall|s: int|
                            0 <= s < surv_old.len() ==> views(survivors@)[s] == #[trigger] surv_old[s]);
                        assert forall|s1: int, s2: int|
                            0 <= s1 < s2 < views(survivors@).len() implies (#[trigger] views(
                            survivors@,
                        )[s1]).len() >= (#[trigger] views(survivors@)[s2]).len() by {
                            if s2 == views(survivors@).len() - 1 {
                                assert(views(survivors@)[s1] == sorted0[wit[s1]]);
                                assert(views(survivors@)[s2] == sorted0[t as int]);
                                assert(wit[s1] < t);
                            }
                        }
                    }
                    assert forall|s: int, s2: int|
                        0 <= s < views(survivors@).len() && 0 <= s2 < views(survivors@).len() && s
                            != s2 implies !contains_seq(
                        #[trigger] views(survivors@)[s],
                        #[trigger] views(survivors@)[s2],
                    ) by {
                        if s < surv_old.len() && s2 < surv_old.len() {
                            assert(views(survivors@)[s] == surv_old[s]
                                && views(survivors@)[s2] == surv_old[s2]);
                        } else {
                            let so = if s < surv_old.len() {
                                s
                            } else {
                                s2
                            };
                            assert(views(survivors@)[so] == surv_old[so]);
                            let p = wit[so];
                            assert(0 <= p < t && !marked@[p] && surv_old[so] == sorted0[p]);
                            assert(pair_ok(sorted0, p, t as int));
                            let a = sorted0[p];
                            let b = sorted0[t as int];
                            assert(!contains_seq(b, a));
                            assert(!contains_seq(a, b)) by {
                                if contains_seq(a, b) {
                                    assert(a.len() >= b.len());
                                    if a.len() == b.len() {
                                        lemma_contains_eq_len(a, b);
                                        lemma_contains_refl(a);
                                    }
                                }
                            }
                        }
                    }
                    assert(views(survivors@).to_multiset().subset_of(
                        sorted0.take(t + 1).to_multiset(),
                    ));
                    assert(forall|s: int|
                        0 <= s < surv_old.len() ==> views(survivors@)[s] == surv_old[s]);
                    if forall|u: int| 0 <= u < n ==> !marked@[u] {
                        assert(views(survivors@) =~= sorted0.take(t + 1));
                    }
                }
            }
            t = t + 1;
        }
        proof {
            assert(sorted0.take(n as int) =~= sorted0);
            if pairwise_free(views(old(self).contigs@)) && sorted_len_desc(
                views(old(self).contigs@),
            ) {
                // the sort left an already-sorted collection alone, nothing
                // got marked, and the survivors were copied over in order
                assert(sorted0 == views(old(self).contigs@));
                assert(views(survivors@) == sorted0.take(n as int));
            }
            // the sort kept the multiset, so a subset of the sorted collection
            // is a subset of the input collection; and every input contig,
            // marked or not, still occurs inside some survivor
            let inp = views(old(self).contigs@);
            assert forall|x: int| 0 <= x < inp.len() implies covered_by(
                views(survivors@),
                #[trigger] inp[x],
            ) by {
                let v = inp[x];
                assert(inp.contains(v));
                assert(inp.to_multiset().count(v) > 0);
                assert(sorted0.contains(v));
                let pp = choose|pp: int| 0 <= pp < sorted0.len() && sorted0[pp] == v;
                if !marked@[pp] {
                    let ss = slot[pp];
                    assert(wit[ss] == pp && views(survivors@)[ss] == sorted0[pp]);
                    lemma_contains_refl(v);
                    assert(0 <= ss < views(survivors@).len() && contains_seq(
                        views(survivors@)[ss],
                        v,
                    ));
                } else {
                    lemma_container_exists(sorted0, marked@, pp);
                    let u = choose|u: int|
                        0 <= u < sorted0.len() && !marked@[u] && contains_seq(
                            #[trigger] sorted0[u],
                            sorted0[pp],
                        );
                    let ss = slot[u];
                    assert(wit[ss] == u && views(survivors@)[ss] == sorted0[u]);
                    assert(0 <= ss < views(survivors@).len() && contains_seq(
                        views(survivors@)[ss],
                        v,
                    ));
                }
            }
        }
        self.contigs = survivors;
        removed
    }

    /// Merge contigs that overlap by at least `min_overlap` symbols: sort by
    /// length descending, and repeatedly join the first pair found whose
    /// suffix/prefix overlap qualifies, restarting the scan after each join.
    /// Returns twice the number of joins. When it returns 0, no qualifying
    /// overlap exists between any two contigs of the final collection, which
    /// is the input collection reordered.
    #[verifier::rlimit(100)]
    pub fn merge_contigs(&mut self, min_overlap: usize) -> (merged: usize)
        requires
            old(self).contigs@.len() <= usize::MAX / 2,
        ensures
            final(self).nodes@ == old(self).nodes@,
            final(self).edges@ == old(self).edges@,
            final(self).paths@ == old(self).paths@,
            final(self).cycles@ == old(self).cycles@,
            merged % 2 == 0,
            final(self).contigs@.len() + merged / 2 == old(self).contigs@.len(),
            merged == 0 ==> views(final(self).contigs@).to_multiset() == views(
                old(self).contigs@,
            ).to_multiset(),
            merged == 0 ==> sorted_len_desc(views(final(self).contigs@)),
            overlap_free(views(old(self).contigs@), min_overlap as int) ==> merged == 0,
            all_covered(views(old(self).contigs@), views(final(self).contigs@)),
            merge_reachable(
                views(old(self).contigs@).to_multiset(),
                views(final(self).contigs@).to_multiset(),
                min_overlap as int,
                (merged / 2) as nat,
            ),
            overlap_free(views(final(self).contigs@), min_overlap as int),
    {
        sort_by_len_desc(&mut self.contigs);
        let ghost n0 = old(self).contigs@.len() as int;
        let ghost sv = views(self.contigs@);
        proof {
            lemma_covered_of_multiset(views(old(self).contigs@), sv);
            assert(merge_reachable(
                views(old(self).contigs@).to_multiset(),
                views(self.contigs@).to_multiset(),
                min_overlap as int,
                0,
            ));
        }
        let mut merged: usize = 0;
        let mut i: usize = 0;
        while i < self.contigs.len()
            invariant
                self.nodes@ == old(self).nodes@,
                self.edges@ == old(self).edges@,
                self.paths@ == old(self).paths@,
                self.cycles@ == old(self).cycles@,
                n0 <= usize::MAX / 2,
                merged % 2 == 0,
                self.contigs@.len() + merged / 2 == n0,
                merged == 0 ==> views(self.contigs@).to_multiset() == views(
                    old(self).contigs@,
                ).to_multiset(),
                sorted_len_desc(sv),
                sv.to_multiset() == views(old(self).contigs@).to_multiset(),
                merged == 0 ==> views(self.contigs@) == sv,
                overlap_free(views(old(self).contigs@), min_overlap as int) ==> merged == 0,
                all_covered(views(old(self).contigs@), views(self.contigs@)),
                merge_reachable(
                    views(old(self).contigs@).to_multiset(),
                    views(self.contigs@).to_multiset(),
                    min_overlap as int,
                    (merged / 2) as nat,
                ),
                forall|p: int, q: int|
                    0 <= p < i && p < q < self.contigs@.len() ==> merge_spec(
                        views(self.contigs@)[p],
                        views(self.contigs@)[q],
                        min_overlap as int,
                    ) is None,
            decreases self.contigs@.len(), self.contigs@.len() - i,
        {
            let cands = par_merge_candidates(&self.contigs, i, min_overlap);
            let m = cands.len();
            let mut toff: usize = 0;
            while toff < m
                invariant
                    toff <= m,
                    m == cands@.len(),
                    i < self.contigs@.len(),
                    m == self.contigs@.len() - i - 1,
                    forall|t: int|
                        0 <= t < m ==> merge_opt_view(#[trigger] cands@[t]) == merge_spec(
                            views(self.contigs@)[i as int],
                            views(self.contigs@)[i + 1 + t],
                            min_overlap as int,
                        ),
                    forall|x: int| 0 <= x < toff ==> merge_opt_view(#[trigger] cands@[x]) is None,
                ensures
                    toff <= m,
                    forall|x: int| 0 <= x < toff ==> merge_opt_view(#[trigger] cands@[x]) is None,
                    toff < m ==> merge_opt_view(cands@[toff as int]) is Some,
                decreases m - toff,
            {
                if cands[toff].is_some() {
                    break ;
                }
                toff = toff + 1;
            }
            if toff < m {
                // apply the first discovered join, then restart the sweep
                let ghost pre = views(self.contigs@);
                proof {
                    // a join was found, so the input held a qualifying overlap
                    if overlap_free(views(old(self).contigs@), min_overlap as int) {
                        lemma_overlap_free_permutation(
                            views(old(self).contigs@),
                            sv,
                            min_overlap as int,
                        );
                        assert(merge_spec(
                            pre[i as int],
                            pre[i + 1 + toff],
                            min_overlap as int,
                        ) is Some);
                        assert(false);
                    }
                }
                let j = i + 1 + toff;
                let mut cands = cands;
                let cand = cands.swap_remove(toff);
                let new_contig = match cand {
                    Some(pair) => pair.1,
                    None => {
                        proof {
                            assert(false);
                        }
                        Vec::new()
                    },
                };
                let ghost mnew = new_contig@;
                proof {
                    assert(merge_spec(pre[i as int], pre[j as int], min_overlap as int)
                        == Some((cand.unwrap().0 as int, mnew)));
                }
                let ghost ii = i as int;
                let ghost jj = j as int;
                self.contigs.swap_remove(j);
                let ghost c1v = views(self.contigs@);
                proof {
                    assert(c1v =~= pre.update(jj, pre.last()).drop_last());
                }
                self.contigs.swap_remove(i);
                let ghost c2v = views(self.contigs@);
                proof {
                    assert(c2v =~= c1v.update(ii, c1v.last()).drop_last());
                }
                self.contigs.push(new_contig);
                let ghost rounds0 = (merged / 2) as nat;
                merged = merged + 2;
                i = 0;
                proof {
                    let v3 = views(self.contigs@);
                    assert(v3 =~= c2v.push(mnew));
                    let n = pre.len();
                    // this merge is one more round of the recorded chain:
                    // the two contigs left the collection and their join entered
                    lemma_swap_remove_multiset(pre, jj);
                    assert(c1v.to_multiset() == pre.to_multiset().remove(pre[jj]));
                    assert(c1v[ii] == pre[ii]);
                    lemma_swap_remove_multiset(c1v, ii);
                    assert(c2v.to_multiset() == c1v.to_multiset().remove(pre[ii]));
                    assert(v3.to_multiset() =~= c2v.to_multiset().insert(mnew));
                    let a = pre.to_multiset();
                    assert(pre.contains(pre[ii]) && pre.contains(pre[jj]));
                    assert(a.count(pre[ii]) > 0);
                    assert(a.remove(pre[ii]).count(pre[jj]) > 0) by {
                        if pre[ii] == pre[jj] {
                            lemma_count_two(pre, ii, jj);
                        }
                    }
                    assert(join_of(pre[ii], pre[jj], min_overlap as int) == mnew);
                    assert(v3.to_multiset() =~= a.remove(pre[ii]).remove(pre[jj]).insert(mnew));
                    assert(merge_round(a, v3.to_multiset(), min_overlap as int)) by {
                        assert(a.count(pre[ii]) > 0 && a.remove(pre[ii]).count(pre[jj]) > 0
                            && merge_spec(pre[ii], pre[jj], min_overlap as int) is Some
                            && v3.to_multiset() == a.remove(pre[ii]).remove(pre[jj]).insert(
                            join_of(pre[ii], pre[jj], min_overlap as int),
                        ));
                    }
                    lemma_reachable_snoc(
                        views(old(self).contigs@).to_multiset(),
                        a,
                        v3.to_multiset(),
                        min_overlap as int,
                        rounds0,
                    );
                    // where each untouched contig landed after the two
                    // swap-removals and the push of the joined contig
                    lemma_merge_step_parents(pre[ii], pre[jj], min_overlap as int, 1);
                    assert(contains_seq(mnew, pre[ii]) && contains_seq(mnew, pre[jj]));
                    assert(v3[v3.len() - 1] == mnew);
                    let inp = views(old(self).contigs@);
                    assert forall|x: int| 0 <= x < inp.len() implies covered_by(
                        v3,
                        #[trigger] inp[x],
                    ) by {
                        assert(covered_by(pre, inp[x]));
                        let so = choose|so: int|
                            0 <= so < pre.len() && contains_seq(#[trigger] pre[so], inp[x]);
                        if so == ii || so == jj {
                            lemma_contains_trans(mnew, pre[so], inp[x]);
                            assert(0 <= v3.len() - 1 < v3.len() && contains_seq(
                                v3[v3.len() - 1],
                                inp[x],
                            ));
                        } else {
                            // where the untouched contig landed after the two
                            // swap-removals
                            let s2: int = if so == n - 1 {
                                if jj == n - 2 {
                                    ii
                                } else {
                                    jj
                                }
                            } else if so == n - 2 {
                                ii
                            } else {
                                so
                            };
                            assert(v3[s2] == pre[so]);
                            assert(0 <= s2 < v3.len() && contains_seq(v3[s2], inp[x]));
                        }
                    }
                }
            } else {
                proof {
                    assert forall|q: int|
                        i < q < self.contigs@.len() implies merge_spec(
                        views(self.contigs@)[i as int],
                        views(self.contigs@)[q],
                        min_overlap as int,
                    ) is None by {
                        assert(merge_opt_view(cands@[q - i - 1]) is None);
                    }
                }
                i = i + 1;
            }
        }
        proof {
            // the final full sweep tested every ordered pair one way; the
            // scan is orientation-symmetric, so no ordering matters
            assert forall|p: int, q: int|
                0 <= p < views(self.contigs@).len() && 0 <= q < views(self.contigs@).len() && p
                    != q implies merge_spec(
                #[trigger] views(self.contigs@)[p],
                #[trigger] views(self.contigs@)[q],
                min_overlap as int,
            ) is None by {
                if p < q {
                    assert(merge_spec(
                        views(self.contigs@)[p],
                        views(self.contigs@)[q],
                        min_overlap as int,
                    ) is None);
                } else {
                    assert(merge_spec(
                        views(self.contigs@)[q],
                        views(self.contigs@)[p],
                        min_overlap as int,
                    ) is None);
                    lemma_merge_step_comm(
                        views(self.contigs@)[q],
                        views(self.contigs@)[p],
                        min_overlap as int,
                        1,
                    );
                }
            }
        }
        merged
    }

    /// Iterate containment removal and overlap merging until the contig count
    /// stops shrinking. On return no contig is contained in another and no
    /// pair overlaps by `min_overlap` or more: the collection is a fixed
    /// point of both reductions, reached within one round per initial contig.
    pub fn condense(&mut self, min_overlap: usize)
        requires
            old(self).contigs@.len() <= usize::MAX / 2,
        ensures
            final(self).nodes@ == old(self).nodes@,
            final(self).edges@ == old(self).edges@,
            final(self).paths@ == old(self).paths@,
            final(self).cycles@ == old(self).cycles@,
            final(self).contigs@.len() <= old(self).contigs@.len(),
            pairwise_free(views(final(self).contigs@)),
            all_covered(views(old(self).contigs@), views(final(self).contigs@)),
            overlap_free(views(final(self).contigs@), min_overlap as int),
    {
        proof {
            lemma_covered_of_multiset(views(old(self).contigs@), views(self.contigs@));
        }
        loop
            invariant
                self.nodes@ == old(self).nodes@,
                self.edges@ == old(self).edges@,
                self.paths@ == old(self).paths@,
                self.cycles@ == old(self).cycles@,
                self.contigs@.len() <= old(self).contigs@.len(),
                old(self).contigs@.len() <= usize::MAX / 2,
                all_covered(views(old(self).contigs@), views(self.contigs@)),
            ensures
                self.nodes@ == old(self).nodes@,
                self.edges@ == old(self).edges@,
                self.paths@ == old(self).paths@,
                self.cycles@ == old(self).cycles@,
                self.contigs@.len() <= old(self).contigs@.len(),
                pairwise_free(views(self.contigs@)),
                all_covered(views(old(self).contigs@), views(self.contigs@)),
                overlap_free(views(self.contigs@), min_overlap as int),
            decreases self.contigs@.len(),
        {
            let prev = self.contigs.len();
            let ghost round_in = views(self.contigs@);
            let removed = self.remove_contained_contigs();
            let ghost after_remove = views(self.contigs@);
            let merged = self.merge_contigs(min_overlap);
            proof {
                lemma_all_covered_trans(round_in, after_remove, views(self.contigs@));
                lemma_all_covered_trans(
                    views(old(self).contigs@),
                    round_in,
                    views(self.contigs@),
                );
            }
            if self.contigs.len() == prev {
                proof {
                    assert(removed == 0 && merged == 0);
                    lemma_free_permutation(after_remove, views(self.contigs@));
                }
                break ;
            }
        }
    }
}

} // verus!
