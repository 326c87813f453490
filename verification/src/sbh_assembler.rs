use vstd::prelude::*;
use crate::utils;
use crate::utils::{encode_seq, decode_seq, kmer_window, valid_seq, KMER_LEN};

verus! {

/// Selects which k-mer of a read an encoding call is about.
pub enum NodeType {
    Prefix,
    Suffix,
}

/// Selects whether a traversal looks for an open path or a closed cycle.
#[derive(Copy, Clone)]
pub enum PathType {
    Path,
    Cycle,
}

/// Shortest path worth keeping, in nodes.
pub const MIN_PATH_LEN: usize = 5;

/// Shortest cycle worth keeping, in nodes.
pub const MIN_CYCLE_LEN: usize = 3;

/// One k-mer of the graph: its integer key and its live degree counters.
#[derive(Clone, Copy)]
pub struct Node {
    pub idx: u32,
    pub ideg: usize,
    pub odeg: usize,
}

impl Node {
    pub fn new(idx: u32, ideg: usize, odeg: usize) -> (n: Node)
        ensures
            n.idx == idx,
            n.ideg == ideg,
            n.odeg == odeg,
    {
        Node { idx, ideg, odeg }
    }
}

/// One read: an edge from its prefix k-mer to its suffix k-mer, consumable once.
#[derive(Clone, Copy)]
pub struct Edge {
    pub prefix: u32,
    pub suffix: u32,
    pub used: bool,
}

impl Edge {
    pub fn new(prefix: u32, suffix: u32) -> (e: Edge)
        ensures
            e.prefix == prefix,
            e.suffix == suffix,
            !e.used,
    {
        Edge { prefix, suffix, used: false }
    }

    pub fn mark_used(&mut self)
        ensures
            final(self).prefix == old(self).prefix,
            final(self).suffix == old(self).suffix,
            final(self).used,
    {
        self.used = true;
    }
}

/// Edges that still carry an unconsumed step out of `key`.
pub open spec fn out_pred(key: u32) -> spec_fn(Edge) -> bool {
    |e: Edge| e.prefix == key && !e.used
}

/// Edges that still carry an unconsumed step into `key`.
pub open spec fn in_pred(key: u32) -> spec_fn(Edge) -> bool {
    |e: Edge| e.suffix == key && !e.used
}

/// Edges that are not consumed yet, whatever their endpoints.
pub open spec fn live_pred() -> spec_fn(Edge) -> bool {
    |e: Edge| !e.used
}

/// How many edges of the sequence satisfy the predicate.
pub open spec fn count_matching(es: Seq<Edge>, f: spec_fn(Edge) -> bool) -> nat
    decreases es.len(),
{
    if es.len() == 0 {
        0
    } else {
        count_matching(es.drop_last(), f) + (if f(es.last()) {
            1nat
        } else {
            0nat
        })
    }
}

pub proof fn lemma_count_le_len(es: Seq<Edge>, f: spec_fn(Edge) -> bool)
    ensures
        count_matching(es, f) <= es.len(),
    decreases es.len(),
{
    if es.len() > 0 {
        lemma_count_le_len(es.drop_last(), f);
    }
}

pub proof fn lemma_count_push(es: Seq<Edge>, e: Edge, f: spec_fn(Edge) -> bool)
    ensures
        count_matching(es.push(e), f) == count_matching(es, f) + (if f(e) {
            1nat
        } else {
            0nat
        }),
{
    assert(es.push(e).drop_last() =~= es);
    assert(es.push(e).last() == e);
}

pub proof fn lemma_count_update(es: Seq<Edge>, k: int, e2: Edge, f: spec_fn(Edge) -> bool)
    requires
        0 <= k < es.len(),
    ensures
        count_matching(es.update(k, e2), f) + (if f(es[k]) {
            1nat
        } else {
            0nat
        }) == count_matching(es, f) + (if f(e2) {
            1nat
        } else {
            0nat
        }),
    decreases es.len(),
{
    let es2 = es.update(k, e2);
    if k == es.len() - 1 {
        assert(es2.drop_last() =~= es.drop_last());
        assert(es2.last() == e2);
        assert(es.last() == es[k]);
    } else {
        assert(es2.drop_last() =~= es.drop_last().update(k, e2));
        assert(es2.last() == es.last());
        lemma_count_update(es.drop_last(), k, e2, f);
        assert(es.drop_last()[k] == es[k]);
    }
}

pub proof fn lemma_count_zero(es: Seq<Edge>, f: spec_fn(Edge) -> bool)
    requires
        forall|k: int| 0 <= k < es.len() ==> !f(es[k]),
    ensures
        count_matching(es, f) == 0,
    decreases es.len(),
{
    if es.len() > 0 {
        assert(forall|k: int| 0 <= k < es.drop_last().len() ==> es.drop_last()[k] == es[k]);
        lemma_count_zero(es.drop_last(), f);
        assert(!f(es.last()));
    }
}

pub proof fn lemma_count_pos(es: Seq<Edge>, f: spec_fn(Edge) -> bool, k: int)
    requires
        0 <= k < es.len(),
        f(es[k]),
    ensures
        count_matching(es, f) >= 1,
    decreases es.len(),
{
    if k < es.len() - 1 {
        assert(es.drop_last()[k] == es[k]);
        lemma_count_pos(es.drop_last(), f, k);
    }
}

/// Some node of the arena carries this key.
pub open spec fn has_node(ns: Seq<Node>, key: u32) -> bool {
    exists|i: int| 0 <= i < ns.len() && ns[i].idx == key
}

/// Well-formed graph state: node keys are unique and serve as identity, every
/// node's live degree counters agree with the unconsumed edges incident to it,
/// and every edge endpoint is a node of the arena.
pub open spec fn graph_wf(ns: Seq<Node>, es: Seq<Edge>) -> bool {
    &&& forall|p: int, q: int| 0 <= p < q < ns.len() ==> ns[p].idx != ns[q].idx
    &&& forall|p: int|
        0 <= p < ns.len() ==> (#[trigger] ns[p]).odeg == count_matching(es, out_pred(ns[p].idx))
    &&& forall|p: int|
        0 <= p < ns.len() ==> (#[trigger] ns[p]).ideg == count_matching(es, in_pred(ns[p].idx))
    &&& forall|k: int|
        0 <= k < es.len() ==> has_node(ns, (#[trigger] es[k]).prefix) && has_node(
            ns,
            es[k].suffix,
        )
}

/// The new edge sequence keeps every edge's endpoints and never un-consumes one.
pub open spec fn edges_monotone(es0: Seq<Edge>, es1: Seq<Edge>) -> bool {
    &&& es0.len() == es1.len()
    &&& forall|k: int|
        0 <= k < es0.len() ==> (#[trigger] es1[k]).prefix == es0[k].prefix && es1[k].suffix
            == es0[k].suffix && (es0[k].used ==> es1[k].used)
}

/// The symbol sequence one extracted path or cycle decodes to: every node's
/// k-mer, concatenated in traversal order.
pub open spec fn contig_of(p: Seq<u32>) -> Seq<u8>
    decreases p.len(),
{
    if p.len() == 0 {
        Seq::empty()
    } else {
        contig_of(p.drop_last()) + decode_seq(p.last() as int, KMER_LEN as nat)
    }
}

/// Every node of the arena is an endpoint of some edge.
pub open spec fn nodes_covered(ns: Seq<Node>, es: Seq<Edge>) -> bool {
    forall|p: int|
        0 <= p < ns.len() ==> exists|k: int|
            0 <= k < es.len() && ((#[trigger] ns[p]).idx == (#[trigger] es[k]).prefix || ns[p].idx
                == es[k].suffix)
}

/// The node's live degrees qualify it to start a walk of the given kind: a
/// net edge source for paths, positive degrees on both sides for cycles.
pub open spec fn node_qualifies(n: Node, typ: PathType) -> bool {
    match typ {
        PathType::Path => n.odeg > n.ideg,
        PathType::Cycle => n.odeg > 0 && n.ideg > 0,
    }
}

/// Some node of the arena carries `key` and qualifies as a start of the given
/// kind.
pub open spec fn start_qualifies(ns: Seq<Node>, key: u32, typ: PathType) -> bool {
    exists|p: int|
        0 <= p < ns.len() && (#[trigger] ns[p]).idx == key && node_qualifies(ns[p], typ)
}

/// The keys of the nodes that qualify as traversal starts, in arena order.
pub open spec fn starts_of(ns: Seq<Node>, typ: PathType) -> Seq<u32>
    decreases ns.len(),
{
    if ns.len() == 0 {
        Seq::empty()
    } else {
        starts_of(ns.drop_last(), typ) + (if node_qualifies(ns.last(), typ) {
            seq![ns.last().idx]
        } else {
            Seq::empty()
        })
    }
}

/// The retained walk collection as a sequence of key sequences.
pub open spec fn walk_views(s: Seq<Vec<u32>>) -> Seq<Seq<u32>> {
    Seq::new(s.len(), |i: int| s[i]@)
}

/// `appended` is exactly the walks that meet the retention threshold, in
/// order: nothing else is kept and no qualifying walk is dropped.
pub open spec fn retained_matches(walks: Seq<Seq<u32>>, min_len: int, appended: Seq<Seq<u32>>) -> bool
    decreases walks.len(),
{
    if walks.len() == 0 {
        appended.len() == 0
    } else if walks.last().len() >= min_len {
        appended.len() >= 1 && appended.last() == walks.last() && retained_matches(
            walks.drop_last(),
            min_len,
            appended.drop_last(),
        )
    } else {
        retained_matches(walks.drop_last(), min_len, appended)
    }
}

/// `w` lists, step by step, the edges one walk consumed: edge `w[t]` was
/// unconsumed before the walk and is consumed after it, it runs from the
/// walk's node `t` to its node `t+1`, and no edge is listed twice — so the
/// walk is an edge-walk over pairwise-distinct edges of the multigraph.
pub open spec fn walk_witness(es0: Seq<Edge>, es1: Seq<Edge>, path: Seq<u32>, w: Seq<int>) -> bool {
    &&& w.len() + 1 == path.len()
    &&& forall|t: int|
        0 <= t < w.len() ==> 0 <= #[trigger] w[t] < es0.len() && !es0[w[t]].used && w[t]
            < es1.len() && es1[w[t]].used && es0[w[t]].prefix == path[t] && es0[w[t]].suffix
            == path[t + 1]
    &&& forall|t1: int, t2: int| 0 <= t1 < t2 < w.len() ==> w[t1] != w[t2]
}

/// `ws` backs every item appended beyond `old_items` with a walk witness
/// over the edge snapshots `es0` (before the walks) and `es1` (after them):
/// each retained sequence is a real walk whose steps consumed pairwise
/// distinct edges of this graph.
pub open spec fn walks_witnessed(
    es0: Seq<Edge>,
    es1: Seq<Edge>,
    old_items: Seq<Vec<u32>>,
    new_items: Seq<Vec<u32>>,
    ws: Seq<Seq<int>>,
) -> bool {
    &&& ws.len() + old_items.len() == new_items.len()
    &&& forall|t: int|
        old_items.len() <= t < new_items.len() ==> walk_witness(
            es0,
            es1,
            (#[trigger] new_items[t])@,
            ws[t - old_items.len()],
        )
}

/// `es1` is `es0` with exactly the edges listed in `w` consumed: nothing else
/// moved.
pub open spec fn consumed_exactly(es0: Seq<Edge>, es1: Seq<Edge>, w: Seq<int>) -> bool {
    &&& es0.len() == es1.len()
    &&& forall|k: int|
        0 <= k < es0.len() ==> #[trigger] es1[k] == (if w.contains(k) {
            Edge { prefix: es0[k].prefix, suffix: es0[k].suffix, used: true }
        } else {
            es0[k]
        })
}

/// One complete greedy traversal from `esa` to `esb`: its steps consumed
/// exactly the pairwise-distinct edges of its witness, and it stopped only
/// where the walk rules allow — no unconsumed out-edge left at its last node,
/// or, on a cycle run, back at its start.
pub open spec fn walk_ok(
    esa: Seq<Edge>,
    esb: Seq<Edge>,
    typ: PathType,
    walk: Seq<u32>,
    w: Seq<int>,
) -> bool {
    &&& walk.len() >= 1
    &&& walk_witness(esa, esb, walk, w)
    &&& consumed_exactly(esa, esb, w)
    &&& (typ is Path ==> count_matching(esb, out_pred(walk.last())) == 0)
    &&& (typ is Cycle ==> walk.last() == walk[0] || count_matching(esb, out_pred(walk.last()))
        == 0)
}

/// The full trace of one populate run: one traversal per node that qualified
/// at entry, in arena order, each rewriting the edge state the one before it
/// left behind.
pub open spec fn populate_trace(
    ns0: Seq<Node>,
    typ: PathType,
    states: Seq<Seq<Edge>>,
    walks: Seq<Seq<u32>>,
    ws: Seq<Seq<int>>,
) -> bool {
    &&& states.len() == walks.len() + 1
    &&& ws.len() == walks.len()
    &&& walks.len() == starts_of(ns0, typ).len()
    &&& forall|t: int| 0 <= t < walks.len() ==> (#[trigger] walks[t])[0] == starts_of(ns0, typ)[t]
    &&& forall|t: int|
        0 <= t < walks.len() ==> walk_ok(#[trigger] states[t], states[t + 1], typ, walks[t], ws[t])
}

/// A walk witness survives widening its edge snapshots: consumption flags
/// only ever move from unconsumed to consumed, and endpoints never change.
pub proof fn lemma_walk_witness_widen(
    es_a: Seq<Edge>,
    es_b: Seq<Edge>,
    es_c: Seq<Edge>,
    es_d: Seq<Edge>,
    path: Seq<u32>,
    w: Seq<int>,
)
    requires
        edges_monotone(es_a, es_b),
        walk_witness(es_b, es_c, path, w),
        edges_monotone(es_c, es_d),
    ensures
        walk_witness(es_a, es_d, path, w),
{
    assert forall|t: int| 0 <= t < w.len() implies 0 <= #[trigger] w[t] < es_a.len()
        && !es_a[w[t]].used && w[t] < es_d.len() && es_d[w[t]].used && es_a[w[t]].prefix == path[t]
        && es_a[w[t]].suffix == path[t + 1] by {
        assert(0 <= w[t] < es_b.len() && !es_b[w[t]].used && es_c[w[t]].used);
    }
}

/// Edge `k` records read `k`: it runs from the read's prefix key to its suffix
/// key and starts unconsumed.
pub open spec fn edge_records_read(e: Edge, read: Seq<u8>) -> bool {
    &&& e.prefix == encode_seq(kmer_window(read, NodeType::Prefix))
    &&& e.suffix == encode_seq(kmer_window(read, NodeType::Suffix))
    &&& !e.used
}

/// The de-Bruijn-style multigraph and everything derived from it: one node per
/// distinct k-mer key, one edge per read, the extracted paths and cycles, and
/// the contigs they decode to.
pub struct Assembler {
    pub nodes: Vec<Node>,
    pub edges: Vec<Edge>,
    pub paths: Vec<Vec<u32>>,
    pub cycles: Vec<Vec<u32>>,
    pub contigs: Vec<Vec<u8>>,
}

/// Index of the arena node carrying `key`, if any.
fn find_node_index(nodes: &Vec<Node>, key: u32) -> (r: Option<usize>)
    ensures
        match r {
            Some(i) => i < nodes@.len() && nodes@[i as int].idx == key,
            None => !has_node(nodes@, key),
        },
{
    let mut i: usize = 0;
    while i < nodes.len()
        invariant
            i <= nodes@.len(),
            forall|j: int| 0 <= j < i ==> nodes@[j].idx != key,
        decreases nodes@.len() - i,
    {
        if nodes[i].idx == key {
            return Some(i);
        }
        i = i + 1;
    }
    None
}

/// Record one read: look up or create both endpoint nodes, credit their
/// degree counters, and append the unconsumed edge.
#[verifier::rlimit(50)]
fn add_read_edge(nodes: &mut Vec<Node>, edges: &mut Vec<Edge>, pidx: u32, sidx: u32)
    requires
        graph_wf(old(nodes)@, old(edges)@),
        old(edges)@.len() < usize::MAX,
    ensures
        graph_wf(final(nodes)@, final(edges)@),
        final(edges)@ == old(edges)@.push(Edge { prefix: pidx, suffix: sidx, used: false }),
        final(nodes)@.len() >= old(nodes)@.len(),
        forall|p: int| 0 <= p < old(nodes)@.len() ==> final(nodes)@[p].idx == old(nodes)@[p].idx,
        forall|p: int|
            old(nodes)@.len() <= p < final(nodes)@.len() ==> (#[trigger] final(nodes)@[p]).idx
                == pidx || final(nodes)@[p].idx == sidx,
{
    let ghost ns0 = nodes@;
    let ghost es0 = edges@;
    let ghost ppos: int;
    // look up or create the prefix node, crediting one outgoing edge
    match find_node_index(nodes, pidx) {
        Some(i) => {
            let n = nodes[i];
            proof {
                ppos = i as int;
                lemma_count_le_len(es0, out_pred(pidx));
            }
            nodes[i] = Node { idx: n.idx, ideg: n.ideg, odeg: n.odeg + 1 };
        },
        None => {
            proof {
                ppos = ns0.len() as int;
                assert(forall|k: int|
                    0 <= k < es0.len() ==> !(out_pred(pidx)(#[trigger] es0[k]))
                        && !(in_pred(pidx)(es0[k])));
                lemma_count_zero(es0, out_pred(pidx));
                lemma_count_zero(es0, in_pred(pidx));
            }
            nodes.push(Node { idx: pidx, ideg: 0, odeg: 1 });
        },
    }
    let ghost ns1 = nodes@;
    proof {
        assert(0 <= ppos < ns1.len());
        assert(ns1[ppos].idx == pidx);
        assert(ns1[ppos].odeg == count_matching(es0, out_pred(pidx)) + 1);
        assert(ns1[ppos].ideg == count_matching(es0, in_pred(pidx)));
        assert(forall|p: int| 0 <= p < ns1.len() && p != ppos ==> ns1[p] == ns0[p]);
        assert(forall|p: int, q: int| 0 <= p < q < ns1.len() ==> ns1[p].idx != ns1[q].idx);
    }
    let ghost spos: int;
    // look up or create the suffix node, crediting one incoming edge
    match find_node_index(nodes, sidx) {
        Some(i) => {
            let n = nodes[i];
            proof {
                spos = i as int;
                lemma_count_le_len(es0, in_pred(sidx));
                if i as int != ppos {
                    assert(ns1[i as int] == ns0[i as int]);
                }
            }
            nodes[i] = Node { idx: n.idx, ideg: n.ideg + 1, odeg: n.odeg };
        },
        None => {
            proof {
                spos = ns1.len() as int;
                assert(!has_node(ns0, sidx)) by {
                    if has_node(ns0, sidx) {
                        let w = choose|w: int| 0 <= w < ns0.len() && ns0[w].idx == sidx;
                        assert(ns1[w].idx == sidx);
                    }
                }
                assert(forall|k: int|
                    0 <= k < es0.len() ==> !(out_pred(sidx)(#[trigger] es0[k]))
                        && !(in_pred(sidx)(es0[k])));
                lemma_count_zero(es0, out_pred(sidx));
                lemma_count_zero(es0, in_pred(sidx));
            }
            nodes.push(Node { idx: sidx, ideg: 1, odeg: 0 });
        },
    }
    let ghost ns2 = nodes@;
    proof {
        assert(0 <= spos < ns2.len());
        assert(ns2[spos].idx == sidx);
        assert(ns2[spos].ideg == count_matching(es0, in_pred(sidx)) + 1);
        assert(forall|p: int| 0 <= p < ns2.len() && p != spos ==> ns2[p] == ns1[p]);
        assert(forall|p: int, q: int| 0 <= p < q < ns2.len() ==> ns2[p].idx != ns2[q].idx);
        // odeg was settled by the prefix upsert and only moved at ppos
        assert forall|p: int| 0 <= p < ns2.len() implies (#[trigger] ns2[p]).odeg
            == count_matching(es0, out_pred(ns2[p].idx)) + (if ns2[p].idx == pidx {
            1nat
        } else {
            0nat
        }) by {
            if p == spos && spos >= ns1.len() {
                // freshly pushed suffix node: no live out-edges carry its key yet
            } else {
                assert(ns2[p].odeg == ns1[p].odeg && ns2[p].idx == ns1[p].idx);
                if p != ppos {
                    assert(ns1[p] == ns0[p]);
                    assert(ns1[p].idx != pidx);
                }
            }
        }
        assert forall|p: int| 0 <= p < ns2.len() implies (#[trigger] ns2[p]).ideg
            == count_matching(es0, in_pred(ns2[p].idx)) + (if ns2[p].idx == sidx {
            1nat
        } else {
            0nat
        }) by {
            if p != spos {
                assert(ns2[p] == ns1[p]);
                assert(ns2[p].idx != sidx);
                if p != ppos {
                    assert(ns1[p] == ns0[p]);
                }
            }
        }
    }
    let e = Edge { prefix: pidx, suffix: sidx, used: false };
    edges.push(e);
    proof {
        let es2 = es0.push(e);
        assert(edges@ == es2);
        assert(has_node(ns2, pidx)) by {
            assert(ns2[ppos].idx == pidx || ns2[ppos] != ns1[ppos]);
            if ns2[ppos].idx != pidx {
                assert(ppos == spos);
                assert(ns1[ppos].idx == pidx && ns2[spos].idx == sidx);
            }
        }
        assert(has_node(ns2, sidx));
        assert forall|p: int| 0 <= p < ns2.len() implies (#[trigger] ns2[p]).odeg
            == count_matching(es2, out_pred(ns2[p].idx)) && ns2[p].ideg == count_matching(
            es2,
            in_pred(ns2[p].idx),
        ) by {
            lemma_count_push(es0, e, out_pred(ns2[p].idx));
            lemma_count_push(es0, e, in_pred(ns2[p].idx));
        }
        assert forall|k: int| 0 <= k < es2.len() implies has_node(
            ns2,
            (#[trigger] es2[k]).prefix,
        ) && has_node(ns2, es2[k].suffix) by {
            if k < es0.len() {
                assert(es2[k] == es0[k]);
                assert(has_node(ns0, es0[k].prefix) && has_node(ns0, es0[k].suffix));
                let wp = choose|w: int| 0 <= w < ns0.len() && ns0[w].idx == es0[k].prefix;
                let ws = choose|w: int| 0 <= w < ns0.len() && ns0[w].idx == es0[k].suffix;
                assert(ns2[wp].idx == es0[k].prefix || wp == ppos || wp == spos);
                assert(ns2[ws].idx == es0[k].suffix || ws == ppos || ws == spos);
                if ns2[wp].idx != es0[k].prefix {
                    assert(es0[k].prefix == pidx || es0[k].prefix == sidx);
                }
                if ns2[ws].idx != es0[k].suffix {
                    assert(es0[k].suffix == pidx || es0[k].suffix == sidx);
                }
            }
        }
        assert(graph_wf(ns2, es2));
    }
}

impl Assembler {
    /// Degree counters agree with live edges, keys are identity, endpoints
    /// resolve to nodes.
    pub open spec fn wf(self) -> bool {
        graph_wf(self.nodes@, self.edges@)
    }

    /// Build the graph: one edge per read, nodes created lazily the first time
    /// a k-mer key is seen, degree counters counting incident edges.
    pub fn new(reads: Vec<Vec<u8>>) -> (a: Assembler)
        requires
            forall|r: int|
                0 <= r < reads@.len() ==> (#[trigger] reads@[r])@.len() == 2 * KMER_LEN
                    && valid_seq(reads@[r]@),
        ensures
            a.wf(),
            a.edges@.len() == reads@.len(),
            forall|k: int|
                0 <= k < reads@.len() ==> edge_records_read(#[trigger] a.edges@[k], reads@[k]@),
            nodes_covered(a.nodes@, a.edges@),
            a.paths@.len() == 0,
            a.cycles@.len() == 0,
            a.contigs@.len() == 0,
    {
        let mut nodes: Vec<Node> = Vec::new();
        let mut edges: Vec<Edge> = Vec::new();
        let mut r: usize = 0;
        while r < reads.len()
            invariant
                r <= reads@.len(),
                forall|t: int|
                    0 <= t < reads@.len() ==> (#[trigger] reads@[t])@.len() == 2 * KMER_LEN
                        && valid_seq(reads@[t]@),
                edges@.len() == r,
                forall|k: int| 0 <= k < r ==> edge_records_read(#[trigger] edges@[k], reads@[k]@),
                graph_wf(nodes@, edges@),
                nodes_covered(nodes@, edges@),
            decreases reads@.len() - r,
        {
            let read = &reads[r];
            let pidx = utils::vec2idx(read, NodeType::Prefix);
            let sidx = utils::vec2idx(read, NodeType::Suffix);
            let ghost ns0 = nodes@;
            let ghost es0 = edges@;
            add_read_edge(&mut nodes, &mut edges, pidx, sidx);
            proof {
                assert(forall|k: int| 0 <= k < r ==> edges@[k] == es0[k]);
                assert(edge_records_read(edges@[r as int], reads@[r as int]@));
                assert(nodes_covered(nodes@, edges@)) by {
                    assert forall|p: int| 0 <= p < nodes@.len() implies exists|k: int|
                        0 <= k < edges@.len() && ((#[trigger] nodes@[p]).idx
                            == (#[trigger] edges@[k]).prefix || nodes@[p].idx == edges@[k].suffix)
                        by {
                        if p < ns0.len() {
                            assert(nodes@[p].idx == ns0[p].idx);
                            let k = choose|k: int|
                                0 <= k < es0.len() && (ns0[p].idx == (#[trigger] es0[k]).prefix
                                    || ns0[p].idx == es0[k].suffix);
                            assert(edges@[k] == es0[k]);
                            assert(0 <= k < edges@.len() && (nodes@[p].idx == edges@[k].prefix
                                || nodes@[p].idx == edges@[k].suffix));
                        } else {
                            let k = edges@.len() - 1;
                            assert(0 <= k < edges@.len() && (nodes@[p].idx == edges@[k].prefix
                                || nodes@[p].idx == edges@[k].suffix));
                        }
                    }
                }
            }
            r = r + 1;
        }
        let a = Assembler {
            nodes,
            edges,
            paths: Vec::new(),
            cycles: Vec::new(),
            contigs: Vec::new(),
        };
        a
    }

    /// Index of some not-yet-consumed edge out of `key`, if one exists.
    fn find_live_out_edge(&self, key: u32) -> (r: Option<usize>)
        ensures
            match r {
                Some(k) => k < self.edges@.len() && self.edges@[k as int].prefix == key
                    && !self.edges@[k as int].used,
                None => count_matching(self.edges@, out_pred(key)) == 0,
            },
    {
        let mut k: usize = 0;
        while k < self.edges.len()
            invariant
                k <= self.edges@.len(),
                forall|j: int| 0 <= j < k ==> !(out_pred(key)(#[trigger] self.edges@[j])),
            decreases self.edges@.len() - k,
        {
            let e = self.edges[k];
            if e.prefix == key && !e.used {
                return Some(k);
            }
            k = k + 1;
        }
        proof {
            lemma_count_zero(self.edges@, out_pred(key));
        }
        None
    }

    /// Consume edge `k`: flag it used and decrement the live degree counters of
    /// both of its endpoints, in one step.
    #[verifier::rlimit(50)]
    fn consume_edge(&mut self, k: usize)
        requires
            old(self).wf(),
            k < old(self).edges@.len(),
            !old(self).edges@[k as int].used,
        ensures
            final(self).wf(),
            final(self).edges@ == old(self).edges@.update(
                k as int,
                Edge {
                    prefix: old(self).edges@[k as int].prefix,
                    suffix: old(self).edges@[k as int].suffix,
                    used: true,
                },
            ),
            final(self).nodes@.len() == old(self).nodes@.len(),
            forall|p: int|
                0 <= p < old(self).nodes@.len() ==> final(self).nodes@[p].idx == old(self).nodes@[p].idx,
            final(self).paths@ == old(self).paths@,
            final(self).cycles@ == old(self).cycles@,
            final(self).contigs@ == old(self).contigs@,
    {
        let ghost ns0 = self.nodes@;
        let ghost es0 = self.edges@;
        let e = self.edges[k];
        let mut e2 = e;
        e2.mark_used();
        self.edges[k] = e2;
        let ghost es2 = self.edges@;
        let pi = match find_node_index(&self.nodes, e.prefix) {
            Some(i) => i,
            None => {
                proof {
                    assert(has_node(ns0, es0[k as int].prefix));
                    assert(false);
                }
                0
            },
        };
        let n = self.nodes[pi];
        proof {
            lemma_count_pos(es0, out_pred(n.idx), k as int);
        }
        self.nodes[pi] = Node { idx: n.idx, ideg: n.ideg, odeg: n.odeg - 1 };
        let ghost ns1 = self.nodes@;
        let si = match find_node_index(&self.nodes, e.suffix) {
            Some(i) => i,
            None => {
                proof {
                    assert(has_node(ns0, es0[k as int].suffix));
                    let w = choose|w: int| 0 <= w < ns0.len() && ns0[w].idx == e.suffix;
                    assert(ns1[w].idx == e.suffix);
                    assert(false);
                }
                0
            },
        };
        let m = self.nodes[si];
        proof {
            assert(m.idx == ns0[si as int].idx);
            assert(m.ideg == ns0[si as int].ideg);
            lemma_count_pos(es0, in_pred(m.idx), k as int);
        }
        self.nodes[si] = Node { idx: m.idx, ideg: m.ideg - 1, odeg: m.odeg };
        let ghost ns2 = self.nodes@;
        proof {
            assert(forall|p: int| 0 <= p < ns2.len() ==> ns2[p].idx == ns0[p].idx);
            assert(forall|p: int, q: int| 0 <= p < q < ns2.len() ==> ns2[p].idx != ns2[q].idx);
            // only the prefix node's out-degree and the suffix node's in-degree moved
            assert forall|p: int| 0 <= p < ns2.len() implies (#[trigger] ns2[p]).odeg
                == count_matching(es2, out_pred(ns2[p].idx)) && ns2[p].ideg == count_matching(
                es2,
                in_pred(ns2[p].idx),
            ) by {
                lemma_count_update(es0, k as int, es2[k as int], out_pred(ns2[p].idx));
                lemma_count_update(es0, k as int, es2[k as int], in_pred(ns2[p].idx));
                if p != pi as int {
                    assert(ns2[p].idx != e.prefix);
                    assert(ns1[p].odeg == ns0[p].odeg);
                }
                if p != si as int {
                    assert(ns2[p].idx != e.suffix);
                    assert(ns2[p].ideg == ns1[p].ideg);
                }
            }
            assert forall|j: int| 0 <= j < es2.len() implies has_node(
                ns2,
                (#[trigger] es2[j]).prefix,
            ) && has_node(ns2, es2[j].suffix) by {
                assert(has_node(ns0, es0[j].prefix) && has_node(ns0, es0[j].suffix));
                let wp = choose|w: int| 0 <= w < ns0.len() && ns0[w].idx == es0[j].prefix;
                let ws = choose|w: int| 0 <= w < ns0.len() && ns0[w].idx == es0[j].suffix;
                assert(ns2[wp].idx == es0[j].prefix);
                assert(ns2[ws].idx == es0[j].suffix);
                assert(es2[j].prefix == es0[j].prefix && es2[j].suffix == es0[j].suffix);
            }
            assert(graph_wf(ns2, es2));
        }
    }

    /// One greedy walk from `start`: consume any unconsumed outgoing edge and
    /// step along it, until stuck or — on a cycle run — back at the start.
    /// Each step consumes exactly one edge, so no edge is ever walked twice.
    fn find_path_or_cycle(&mut self, start: u32, typ: PathType) -> (r: (Vec<u32>, Ghost<
        Seq<int>,
    >))
        requires
            old(self).wf(),
        ensures
            final(self).wf(),
            edges_monotone(old(self).edges@, final(self).edges@),
            final(self).nodes@.len() == old(self).nodes@.len(),
            forall|p: int|
                0 <= p < old(self).nodes@.len() ==> final(self).nodes@[p].idx == old(self).nodes@[p].idx,
            final(self).paths@ == old(self).paths@,
            final(self).cycles@ == old(self).cycles@,
            final(self).contigs@ == old(self).contigs@,
            r.0@.len() >= 1,
            r.0@[0] == start,
            count_matching(final(self).edges@, live_pred()) + r.0@.len() == count_matching(
                old(self).edges@,
                live_pred(),
            ) + 1,
            walk_witness(old(self).edges@, final(self).edges@, r.0@, r.1@),
            consumed_exactly(old(self).edges@, final(self).edges@, r.1@),
            count_matching(old(self).edges@, out_pred(start)) > 0 ==> r.0@.len() >= 2,
            typ is Path ==> count_matching(final(self).edges@, out_pred(r.0@.last())) == 0,
            typ is Cycle ==> r.0@.last() == start || count_matching(
                final(self).edges@,
                out_pred(r.0@.last()),
            ) == 0,
    {
        let mut path: Vec<u32> = Vec::new();
        path.push(start);
        let mut current: u32 = start;
        let ghost ns_in = self.nodes@;
        let ghost es_in = self.edges@;
        let ghost paths_in = self.paths@;
        let ghost cycles_in = self.cycles@;
        let ghost contigs_in = self.contigs@;
        let ghost mut steps: Seq<int> = Seq::empty();
        loop
            invariant_except_break
                current == path@.last(),
            invariant
                self.wf(),
                edges_monotone(es_in, self.edges@),
                self.nodes@.len() == ns_in.len(),
                forall|p: int| 0 <= p < ns_in.len() ==> self.nodes@[p].idx == ns_in[p].idx,
                self.paths@ == paths_in,
                self.cycles@ == cycles_in,
                self.contigs@ == contigs_in,
                path@.len() >= 1,
                path@[0] == start,
                count_matching(self.edges@, live_pred()) + path@.len() == count_matching(
                    es_in,
                    live_pred(),
                ) + 1,
                steps.len() + 1 == path@.len(),
                forall|t: int|
                    0 <= t < steps.len() ==> 0 <= #[trigger] steps[t] < es_in.len()
                        && !es_in[steps[t]].used && self.edges@[steps[t]].used
                        && es_in[steps[t]].prefix == path@[t] && es_in[steps[t]].suffix == path@[t
                        + 1],
                forall|t1: int, t2: int| 0 <= t1 < t2 < steps.len() ==> steps[t1] != steps[t2],
                forall|k: int|
                    0 <= k < es_in.len() && !steps.contains(k) ==> self.edges@[k] == es_in[k],
                path@.len() == 1 ==> self.edges@ == es_in,
            ensures
                self.wf(),
                edges_monotone(es_in, self.edges@),
                self.nodes@.len() == ns_in.len(),
                forall|p: int| 0 <= p < ns_in.len() ==> self.nodes@[p].idx == ns_in[p].idx,
                self.paths@ == paths_in,
                self.cycles@ == cycles_in,
                self.contigs@ == contigs_in,
                path@.len() >= 1,
                path@[0] == start,
                count_matching(self.edges@, live_pred()) + path@.len() == count_matching(
                    es_in,
                    live_pred(),
                ) + 1,
                steps.len() + 1 == path@.len(),
                forall|t: int|
                    0 <= t < steps.len() ==> 0 <= #[trigger] steps[t] < es_in.len()
                        && !es_in[steps[t]].used && self.edges@[steps[t]].used
                        && es_in[steps[t]].prefix == path@[t] && es_in[steps[t]].suffix == path@[t
                        + 1],
                forall|t1: int, t2: int| 0 <= t1 < t2 < steps.len() ==> steps[t1] != steps[t2],
                forall|k: int|
                    0 <= k < es_in.len() && !steps.contains(k) ==> self.edges@[k] == es_in[k],
                path@.len() == 1 ==> count_matching(es_in, out_pred(start)) == 0,
                typ is Path ==> count_matching(self.edges@, out_pred(path@.last())) == 0,
                typ is Cycle ==> path@.last() == start || count_matching(
                    self.edges@,
                    out_pred(path@.last()),
                ) == 0,
            decreases count_matching(self.edges@, live_pred()),
        {
            let next = self.find_live_out_edge(current);
            match next {
                Some(kk) => {
                    let e = self.edges[kk];
                    let ghost es_before = self.edges@;
                    self.consume_edge(kk);
                    proof {
                        lemma_count_pos(es_before, live_pred(), kk as int);
                        lemma_count_update(
                            es_before,
                            kk as int,
                            self.edges@[kk as int],
                            live_pred(),
                        );
                        assert(edges_monotone(es_in, self.edges@)) by {
                            assert(forall|j: int|
                                0 <= j < es_before.len() && j != kk ==> self.edges@[j]
                                    == es_before[j]);
                        }
                        assert(!es_in[kk as int].used && es_in[kk as int].prefix == current
                            && es_in[kk as int].suffix == e.suffix);
                        // the chosen edge was still unconsumed, so it differs
                        // from every edge an earlier step consumed
                        assert(forall|t: int|
                            0 <= t < steps.len() ==> #[trigger] steps[t] != kk as int);
                        let ghost steps0 = steps;
                        steps = steps.push(kk as int);
                        assert(forall|k: int|
                            steps.contains(k) == (steps0.contains(k) || k == kk as int)) by {
                            assert(forall|k: int|
                                #[trigger] steps.contains(k) ==> steps0.contains(k) || k == kk
                                    as int) by {
                                assert(forall|t: int|
                                    0 <= t < steps0.len() ==> steps[t] == #[trigger] steps0[t]);
                            }
                            assert(forall|t: int|
                                0 <= t < steps0.len() ==> steps[t] == #[trigger] steps0[t]);
                            assert(steps[steps.len() - 1] == kk as int);
                        }
                    }
                    path.push(e.suffix);
                    if matches!(typ, PathType::Cycle) && e.suffix == start {
                        break ;
                    }
                    current = e.suffix;
                },
                None => {
                    break ;
                },
            }
        }
        proof {
            assert(walk_witness(es_in, self.edges@, path@, steps));
            assert(consumed_exactly(es_in, self.edges@, steps)) by {
                assert forall|k: int| 0 <= k < es_in.len() implies #[trigger] self.edges@[k] == (
                if steps.contains(k) {
                    Edge { prefix: es_in[k].prefix, suffix: es_in[k].suffix, used: true }
                } else {
                    es_in[k]
                }) by {
                    if steps.contains(k) {
                        let t = choose|t: int| 0 <= t < steps.len() && steps[t] == k;
                        assert(!es_in[k].used && self.edges@[k].used);
                        assert(self.edges@[k].prefix == es_in[k].prefix && self.edges@[k].suffix
                            == es_in[k].suffix);
                    }
                }
            }
        }
        (path, Ghost(steps))
    }

    /// Enumerate every node that qualifies as a start for the requested kind of
    /// traversal, walk once from each, and retain only results that meet the
    /// retention threshold: MIN_PATH_LEN nodes for paths, MIN_CYCLE_LEN for
    /// cycles.
    #[verifier::rlimit(100)]
    pub fn populate_paths_or_cycles(&mut self, typ: PathType)
        requires
            old(self).wf(),
        ensures
            final(self).wf(),
            edges_monotone(old(self).edges@, final(self).edges@),
            final(self).nodes@.len() == old(self).nodes@.len(),
            forall|p: int|
                0 <= p < old(self).nodes@.len() ==> final(self).nodes@[p].idx == old(self).nodes@[p].idx,
            final(self).contigs@ == old(self).contigs@,
            (exists|p: int|
                0 <= p < old(self).nodes@.len() && node_qualifies(
                    #[trigger] old(self).nodes@[p],
                    typ,
                )) ==> count_matching(final(self).edges@, live_pred()) < count_matching(
                old(self).edges@,
                live_pred(),
            ),
            typ is Path ==> final(self).cycles@ == old(self).cycles@ && final(self).paths@.len() >= old(self).paths@.len() && (forall|t: int|
                0 <= t < old(self).paths@.len() ==> final(self).paths@[t] == old(self).paths@[t])
                && (forall|t: int|
                old(self).paths@.len() <= t < final(self).paths@.len() ==> (#[trigger] final(self).paths@[t])@.len() >= MIN_PATH_LEN && start_qualifies(
                    old(self).nodes@,
                    final(self).paths@[t]@[0],
                    typ,
                )),
            typ is Path ==> (exists|ws: Seq<Seq<int>>|
                walks_witnessed(
                    old(self).edges@,
                    final(self).edges@,
                    old(self).paths@,
                    final(self).paths@,
                    ws,
                )),
            typ is Path ==> (exists|states: Seq<Seq<Edge>>, walks: Seq<Seq<u32>>, ws: Seq<
                Seq<int>,
            >|
                populate_trace(old(self).nodes@, typ, states, walks, ws) && states[0] == old(
                    self,
                ).edges@ && states[states.len() - 1] == final(self).edges@ && retained_matches(
                    walks,
                    MIN_PATH_LEN as int,
                    walk_views(final(self).paths@).skip(old(self).paths@.len() as int),
                )),
            typ is Cycle ==> final(self).paths@ == old(self).paths@ && final(self).cycles@.len() >= old(self).cycles@.len() && (forall|t: int|
                0 <= t < old(self).cycles@.len() ==> final(self).cycles@[t] == old(self).cycles@[t]) && (forall|t: int|
                old(self).cycles@.len() <= t < final(self).cycles@.len() ==> (#[trigger] final(self).cycles@[t])@.len() >= MIN_CYCLE_LEN && start_qualifies(
                    old(self).nodes@,
                    final(self).cycles@[t]@[0],
                    typ,
                )),
            typ is Cycle ==> (exists|ws: Seq<Seq<int>>|
                walks_witnessed(
                    old(self).edges@,
                    final(self).edges@,
                    old(self).cycles@,
                    final(self).cycles@,
                    ws,
                )),
            typ is Cycle ==> (exists|states: Seq<Seq<Edge>>, walks: Seq<Seq<u32>>, ws: Seq<
                Seq<int>,
            >|
                populate_trace(old(self).nodes@, typ, states, walks, ws) && states[0] == old(
                    self,
                ).edges@ && states[states.len() - 1] == final(self).edges@ && retained_matches(
                    walks,
                    MIN_CYCLE_LEN as int,
                    walk_views(final(self).cycles@).skip(old(self).cycles@.len() as int),
                )),
    {
        // enumerate the start nodes against the degrees as they stand now
        let ghost ns0 = self.nodes@;
        let mut starts: Vec<u32> = Vec::new();
        let mut i: usize = 0;
        while i < self.nodes.len()
            invariant
                i <= self.nodes@.len(),
                self.nodes@ == ns0,
                forall|x: int|
                    0 <= x < starts@.len() ==> start_qualifies(ns0, #[trigger] starts@[x], typ),
                (exists|p: int| 0 <= p < i && node_qualifies(#[trigger] ns0[p], typ))
                    ==> starts@.len() >= 1,
                starts@ == starts_of(ns0.take(i as int), typ),
            decreases self.nodes@.len() - i,
        {
            let n = self.nodes[i];
            let qualifies = match typ {
                PathType::Path => n.odeg > n.ideg,
                PathType::Cycle => n.odeg > 0 && n.ideg > 0,
            };
            proof {
                assert(ns0.take(i + 1).drop_last() =~= ns0.take(i as int));
                assert(ns0.take(i + 1).last() == ns0[i as int]);
            }
            if qualifies {
                let ghost starts_prev = starts@;
                starts.push(n.idx);
                proof {
                    assert(start_qualifies(ns0, n.idx, typ)) by {
                        assert(0 <= i < ns0.len() && ns0[i as int].idx == n.idx);
                    }
                    assert(forall|x: int|
                        0 <= x < starts@.len() - 1 ==> starts@[x] == starts@.drop_last()[x]);
                    assert(starts@ =~= starts_prev + seq![n.idx]);
                }
            } else {
                proof {
                    assert(starts@ + Seq::<u32>::empty() =~= starts@);
                }
            }
            i = i + 1;
        }
        proof {
            assert(ns0.take(ns0.len() as int) =~= ns0);
        }
        let ghost ns_in = self.nodes@;
        let ghost es_in = self.edges@;
        let ghost paths_in = self.paths@;
        let ghost cycles_in = self.cycles@;
        let ghost contigs_in = self.contigs@;
        proof {
            if starts@.len() >= 1 {
                let pp = choose|pp: int|
                    0 <= pp < ns0.len() && ns0[pp].idx == starts@[0] && node_qualifies(
                        ns0[pp],
                        typ,
                    );
                assert(ns0[pp].odeg == count_matching(es_in, out_pred(starts@[0])));
            }
        }
        let ghost mut wits: Seq<Seq<int>> = Seq::empty();
        let ghost mut gstates: Seq<Seq<Edge>> = seq![es_in];
        let ghost mut gwalks: Seq<Seq<u32>> = Seq::empty();
        let ghost mut gtws: Seq<Seq<int>> = Seq::empty();
        proof {
            assert(walk_views(self.paths@).skip(paths_in.len() as int) =~= Seq::<Seq<u32>>::empty());
            assert(walk_views(self.cycles@).skip(cycles_in.len() as int) =~= Seq::<
                Seq<u32>,
            >::empty());
        }
        let mut s: usize = 0;
        while s < starts.len()
            invariant
                s <= starts@.len(),
                ns_in == ns0,
                starts@ == starts_of(ns0, typ),
                gstates.len() == s + 1,
                gwalks.len() == s,
                gtws.len() == s,
                gstates[0] == es_in,
                gstates[s as int] == self.edges@,
                forall|t: int| 0 <= t < s ==> (#[trigger] gwalks[t])[0] == starts@[t],
                forall|t: int|
                    0 <= t < s ==> walk_ok(
                        #[trigger] gstates[t],
                        gstates[t + 1],
                        typ,
                        gwalks[t],
                        gtws[t],
                    ),
                typ is Path ==> retained_matches(
                    gwalks,
                    MIN_PATH_LEN as int,
                    walk_views(self.paths@).skip(paths_in.len() as int),
                ),
                typ is Cycle ==> retained_matches(
                    gwalks,
                    MIN_CYCLE_LEN as int,
                    walk_views(self.cycles@).skip(cycles_in.len() as int),
                ),
                forall|x: int|
                    0 <= x < starts@.len() ==> start_qualifies(ns0, #[trigger] starts@[x], typ),
                starts@.len() >= 1 ==> count_matching(es_in, out_pred(starts@[0])) >= 1,
                s == 0 ==> self.edges@ == es_in,
                s >= 1 ==> count_matching(self.edges@, live_pred()) < count_matching(
                    es_in,
                    live_pred(),
                ),
                self.wf(),
                edges_monotone(es_in, self.edges@),
                self.nodes@.len() == ns_in.len(),
                forall|p: int| 0 <= p < ns_in.len() ==> self.nodes@[p].idx == ns_in[p].idx,
                self.contigs@ == contigs_in,
                typ is Path ==> self.cycles@ == cycles_in && self.paths@.len()
                    >= paths_in.len() && (forall|t: int|
                    0 <= t < paths_in.len() ==> self.paths@[t] == paths_in[t]) && (forall|t: int|
                    paths_in.len() <= t < self.paths@.len() ==> (#[trigger] self.paths@[t])@.len()
                        >= MIN_PATH_LEN && start_qualifies(ns0, self.paths@[t]@[0], typ)),
                typ is Path ==> wits.len() + paths_in.len() == self.paths@.len() && (forall|
                    t: int,
                |
                    paths_in.len() <= t < self.paths@.len() ==> walk_witness(
                        es_in,
                        self.edges@,
                        (#[trigger] self.paths@[t])@,
                        wits[t - paths_in.len()],
                    )),
                typ is Cycle ==> self.paths@ == paths_in && self.cycles@.len()
                    >= cycles_in.len() && (forall|t: int|
                    0 <= t < cycles_in.len() ==> self.cycles@[t] == cycles_in[t]) && (forall|
                    t: int,
                |
                    cycles_in.len() <= t < self.cycles@.len() ==> (#[trigger] self.cycles@[t])@.len()
                        >= MIN_CYCLE_LEN && start_qualifies(ns0, self.cycles@[t]@[0], typ)),
                typ is Cycle ==> wits.len() + cycles_in.len() == self.cycles@.len() && (forall|
                    t: int,
                |
                    cycles_in.len() <= t < self.cycles@.len() ==> walk_witness(
                        es_in,
                        self.edges@,
                        (#[trigger] self.cycles@[t])@,
                        wits[t - cycles_in.len()],
                    )),
            decreases starts@.len() - s,
        {
            let start = starts[s];
            let ghost es_mid = self.edges@;
            let ghost paths_mid = self.paths@;
            let ghost cycles_mid = self.cycles@;
            let ghost gwalks_mid = gwalks;
            let ghost wits_mid = wits;
            let (p, pw) = self.find_path_or_cycle(start, typ);
            let ghost pview = p@;
            let ghost es_post = self.edges@;
            proof {
                assert(edges_monotone(es_in, self.edges@)) by {
                    assert(edges_monotone(es_mid, self.edges@));
                }
                // the first walk starts at a qualifying node, so it consumed
                // at least one edge; later walks can only consume more
                if s == 0 {
                    assert(pview.len() >= 2);
                }
                // record this traversal in the trace
                let gstates_old = gstates;
                let gwalks_old = gwalks;
                let gtws_old = gtws;
                gstates = gstates.push(es_post);
                gwalks = gwalks.push(pview);
                gtws = gtws.push(pw@);
                assert(forall|t: int| 0 <= t <= s ==> gstates[t] == #[trigger] gstates_old[t]);
                assert(forall|t: int| 0 <= t < s ==> gwalks[t] == #[trigger] gwalks_old[t]);
                assert(forall|t: int| 0 <= t < s ==> gtws[t] == #[trigger] gtws_old[t]);
                assert(walk_ok(es_mid, es_post, typ, pview, pw@));
                assert(gwalks[s as int][0] == starts@[s as int]);
            }
            match typ {
                PathType::Path => {
                    let ghost app_old = walk_views(paths_mid).skip(paths_in.len() as int);
                    if p.len() >= MIN_PATH_LEN {
                        self.paths.push(p);
                        proof {
                            wits = wits.push(pw@);
                            assert(walk_views(self.paths@).skip(paths_in.len() as int)
                                =~= app_old.push(pview));
                        }
                    }
                    proof {
                        assert(gwalks.drop_last() =~= gwalks_mid);
                        assert(gwalks.last() == pview);
                        if pview.len() < MIN_PATH_LEN {
                            assert(walk_views(self.paths@).skip(paths_in.len() as int)
                                =~= app_old);
                        } else {
                            assert(walk_views(self.paths@).skip(paths_in.len() as int).drop_last()
                                =~= app_old);
                        }
                        assert(retained_matches(
                            gwalks,
                            MIN_PATH_LEN as int,
                            walk_views(self.paths@).skip(paths_in.len() as int),
                        ));
                    }
                    proof {
                        assert forall|t: int|
                            paths_in.len() <= t < self.paths@.len() implies walk_witness(
                            es_in,
                            self.edges@,
                            (#[trigger] self.paths@[t])@,
                            wits[t - paths_in.len()],
                        ) by {
                            if t < paths_mid.len() {
                                assert(self.paths@[t] == paths_mid[t]);
                                assert(wits[t - paths_in.len()] == wits_mid[t - paths_in.len()]);
                                lemma_walk_witness_widen(
                                    es_in,
                                    es_in,
                                    es_mid,
                                    self.edges@,
                                    paths_mid[t]@,
                                    wits_mid[t - paths_in.len()],
                                );
                            } else {
                                assert(self.paths@[t]@ == pview);
                                assert(wits[t - paths_in.len()] == pw@);
                                lemma_walk_witness_widen(
                                    es_in,
                                    es_mid,
                                    es_post,
                                    self.edges@,
                                    pview,
                                    pw@,
                                );
                            }
                        }
                    }
                },
                PathType::Cycle => {
                    let ghost app_old = walk_views(cycles_mid).skip(cycles_in.len() as int);
                    if p.len() >= MIN_CYCLE_LEN {
                        self.cycles.push(p);
                        proof {
                            wits = wits.push(pw@);
                            assert(walk_views(self.cycles@).skip(cycles_in.len() as int)
                                =~= app_old.push(pview));
                        }
                    }
                    proof {
                        assert(gwalks.drop_last() =~= gwalks_mid);
                        assert(gwalks.last() == pview);
                        if pview.len() < MIN_CYCLE_LEN {
                            assert(walk_views(self.cycles@).skip(cycles_in.len() as int)
                                =~= app_old);
                        } else {
                            assert(walk_views(self.cycles@).skip(cycles_in.len() as int).drop_last()
                                =~= app_old);
                        }
                        assert(retained_matches(
                            gwalks,
                            MIN_CYCLE_LEN as int,
                            walk_views(self.cycles@).skip(cycles_in.len() as int),
                        ));
                    }
                    proof {
                        assert forall|t: int|
                            cycles_in.len() <= t < self.cycles@.len() implies walk_witness(
                            es_in,
                            self.edges@,
                            (#[trigger] self.cycles@[t])@,
                            wits[t - cycles_in.len()],
                        ) by {
                            if t < cycles_mid.len() {
                                assert(self.cycles@[t] == cycles_mid[t]);
                                assert(wits[t - cycles_in.len()] == wits_mid[t - cycles_in.len()]);
                                lemma_walk_witness_widen(
                                    es_in,
                                    es_in,
                                    es_mid,
                                    self.edges@,
                                    cycles_mid[t]@,
                                    wits_mid[t - cycles_in.len()],
                                );
                            } else {
                                assert(self.cycles@[t]@ == pview);
                                assert(wits[t - cycles_in.len()] == pw@);
                                lemma_walk_witness_widen(
                                    es_in,
                                    es_mid,
                                    es_post,
                                    self.edges@,
                                    pview,
                                    pw@,
                                );
                            }
                        }
                    }
                },
            }
            s = s + 1;
        }
        proof {
            assert(es_in == old(self).edges@);
            match typ {
                PathType::Path => {
                    assert(paths_in == old(self).paths@);
                    assert(populate_trace(old(self).nodes@, typ, gstates, gwalks, gtws)) by {
                        assert(old(self).nodes@ == ns0);
                        assert(starts_of(ns0, typ) == starts@);
                    }
                    assert(gstates[0] == old(self).edges@ && gstates[gstates.len() - 1]
                        == self.edges@);
                    assert(retained_matches(
                        gwalks,
                        MIN_PATH_LEN as int,
                        walk_views(self.paths@).skip(old(self).paths@.len() as int),
                    ));
                    assert(walks_witnessed(
                        old(self).edges@,
                        self.edges@,
                        old(self).paths@,
                        self.paths@,
                        wits,
                    )) by {
                        assert forall|t: int|
                            old(self).paths@.len() <= t < self.paths@.len() implies walk_witness(
                            old(self).edges@,
                            self.edges@,
                            (#[trigger] self.paths@[t])@,
                            wits[t - old(self).paths@.len()],
                        ) by {
                            assert(walk_witness(
                                es_in,
                                self.edges@,
                                self.paths@[t]@,
                                wits[t - paths_in.len()],
                            ));
                        }
                    }
                },
                PathType::Cycle => {
                    assert(cycles_in == old(self).cycles@);
                    assert(populate_trace(old(self).nodes@, typ, gstates, gwalks, gtws)) by {
                        assert(old(self).nodes@ == ns0);
                        assert(starts_of(ns0, typ) == starts@);
                    }
                    assert(gstates[0] == old(self).edges@ && gstates[gstates.len() - 1]
                        == self.edges@);
                    assert(retained_matches(
                        gwalks,
                        MIN_CYCLE_LEN as int,
                        walk_views(self.cycles@).skip(old(self).cycles@.len() as int),
                    ));
                    assert(walks_witnessed(
                        old(self).edges@,
                        self.edges@,
                        old(self).cycles@,
                        self.cycles@,
                        wits,
                    )) by {
                        assert forall|t: int|
                            old(self).cycles@.len() <= t < self.cycles@.len() implies walk_witness(
                            old(self).edges@,
                            self.edges@,
                            (#[trigger] self.cycles@[t])@,
                            wits[t - old(self).cycles@.len()],
                        ) by {
                            assert(walk_witness(
                                es_in,
                                self.edges@,
                                self.cycles@[t]@,
                                wits[t - cycles_in.len()],
                            ));
                        }
                    }
                },
            }
        }
    }

    /// Decode every retained path and cycle into one raw contig: each node's
    /// k-mer, concatenated in traversal order with no de-overlapping.
    pub fn paths_cycles_to_contigs(&mut self)
        ensures
            final(self).nodes@ == old(self).nodes@,
            final(self).edges@ == old(self).edges@,
            final(self).paths@ == old(self).paths@,
            final(self).cycles@ == old(self).cycles@,
            final(self).contigs@.len() == old(self).contigs@.len() + old(self).paths@.len() + old(self).cycles@.len(),
            forall|t: int|
                0 <= t < old(self).contigs@.len() ==> final(self).contigs@[t] == old(self).contigs@[t],
            forall|t: int|
                0 <= t < old(self).paths@.len() ==> (#[trigger] final(self).contigs@[old(self).contigs@.len() + t])@ == contig_of(old(self).paths@[t]@),
            forall|t: int|
                0 <= t < old(self).cycles@.len() ==> (#[trigger] final(self).contigs@[old(self).contigs@.len() + old(self).paths@.len() + t])@ == contig_of(
                    old(self).cycles@[t]@,
                ),
    {
        let ghost contigs_in = self.contigs@;
        let ghost paths_in = self.paths@;
        let ghost cycles_in = self.cycles@;
        let mut t: usize = 0;
        while t < self.paths.len()
            invariant
                t <= paths_in.len(),
                self.paths@ == paths_in,
                self.cycles@ == cycles_in,
                self.nodes@ == old(self).nodes@,
                self.edges@ == old(self).edges@,
                self.contigs@.len() == contigs_in.len() + t,
                forall|u: int| 0 <= u < contigs_in.len() ==> self.contigs@[u] == contigs_in[u],
                forall|u: int|
                    0 <= u < t ==> (#[trigger] self.contigs@[contigs_in.len() + u])@ == contig_of(
                        paths_in[u]@,
                    ),
            decreases paths_in.len() - t,
        {
            let c = build_contig(&self.paths[t]);
            self.contigs.push(c);
            t = t + 1;
        }
        let ghost contigs_mid = self.contigs@;
        let mut t2: usize = 0;
        while t2 < self.cycles.len()
            invariant
                t2 <= cycles_in.len(),
                self.paths@ == paths_in,
                self.cycles@ == cycles_in,
                self.nodes@ == old(self).nodes@,
                self.edges@ == old(self).edges@,
                contigs_mid.len() == contigs_in.len() + paths_in.len(),
                self.contigs@.len() == contigs_mid.len() + t2,
                forall|u: int| 0 <= u < contigs_mid.len() ==> self.contigs@[u] == contigs_mid[u],
                forall|u: int|
                    0 <= u < t2 ==> (#[trigger] self.contigs@[contigs_mid.len() + u])@ == contig_of(
                        cycles_in[u]@,
                    ),
            decreases cycles_in.len() - t2,
        {
            let c = build_contig(&self.cycles[t2]);
            self.contigs.push(c);
            t2 = t2 + 1;
        }
        proof {
            assert(forall|u: int|
                0 <= u < contigs_in.len() ==> self.contigs@[u] == contigs_mid[u]);
            assert(forall|u: int|
                0 <= u < paths_in.len() ==> #[trigger] self.contigs@[contigs_in.len() + u]
                    == contigs_mid[contigs_in.len() + u]);
        }
    }
}

/// Decode one extracted node sequence into its raw contig.
fn build_contig(p: &Vec<u32>) -> (c: Vec<u8>)
    ensures
        c@ == contig_of(p@),
{
    let mut contig: Vec<u8> = Vec::new();
    let mut j: usize = 0;
    while j < p.len()
        invariant
            j <= p@.len(),
            contig@ == contig_of(p@.take(j as int)),
        decreases p@.len() - j,
    {
        let seq = utils::idx2vec(p[j], KMER_LEN);
        proof {
            assert(p@.take(j + 1).drop_last() =~= p@.take(j as int));
            assert(p@.take(j + 1).last() == p@[j as int]);
        }
        contig.extend_from_slice(seq.as_slice());
        j = j + 1;
    }
    proof {
        assert(p@.take(p@.len() as int) =~= p@);
    }
    contig
}

} // verus!
