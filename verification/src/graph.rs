//! Per-context directed weighted graph: the node/edge store.
//!
//! Each node keeps its outgoing edges as a list of `(dst, weight)` entries
//! with pairwise distinct destinations and nonzero weights, together with a
//! cached sum of the positive outgoing weights used for normalisation.
//! Writing weight zero removes an edge.

use vstd::prelude::*;
use crate::{NodeId, Weight, MAX_STORED_WEIGHT};

verus! {

/// First-match weight lookup in an edge list; 0 when the destination is absent.
pub open spec fn find_w(es: Seq<(NodeId, Weight)>, d: int) -> int
    decreases es.len(),
{
    if es.len() == 0 {
        0
    } else if es[0].0 == d {
        es[0].1 as int
    } else {
        find_w(es.drop_first(), d)
    }
}

/// Whether an edge list holds an entry for a destination.
pub open spec fn has_dst(es: Seq<(NodeId, Weight)>, d: int) -> bool {
    exists|i: int| 0 <= i < es.len() && (#[trigger] es[i]).0 == d
}

/// Sum of the positive weights of an edge list.
pub open spec fn sum_pos(es: Seq<(NodeId, Weight)>) -> int
    decreases es.len(),
{
    if es.len() == 0 {
        0
    } else {
        (if es[0].1 > 0 {
            es[0].1 as int
        } else {
            0
        }) + sum_pos(es.drop_first())
    }
}

/// Well-formed edge list: nonzero, bounded weights and distinct destinations.
pub open spec fn wf_edges(es: Seq<(NodeId, Weight)>) -> bool {
    &&& forall|i: int|
        0 <= i < es.len() ==> (#[trigger] es[i]).1 != 0 && -MAX_STORED_WEIGHT <= es[i].1
            <= MAX_STORED_WEIGHT
    &&& forall|i: int, j: int| 0 <= i < j < es.len() ==> (#[trigger] es[i]).0 != (#[trigger] es[j]).0
}

pub proof fn lemma_find_w_absent(es: Seq<(NodeId, Weight)>, d: int)
    requires
        !has_dst(es, d),
    ensures
        find_w(es, d) == 0,
    decreases es.len(),
{
    if es.len() > 0 {
        assert(es[0].0 != d);
        assert(forall|i: int|
            0 <= i < es.drop_first().len() ==> (#[trigger] es.drop_first()[i]) == es[i + 1]);
        lemma_find_w_absent(es.drop_first(), d);
    }
}

pub proof fn lemma_find_w_entry(es: Seq<(NodeId, Weight)>, k: int)
    requires
        wf_edges(es),
        0 <= k < es.len(),
    ensures
        find_w(es, es[k].0 as int) == es[k].1,
    decreases es.len(),
{
    if k == 0 {
    } else {
        assert(es[0].0 != es[k].0);
        assert(forall|i: int|
            0 <= i < es.drop_first().len() ==> (#[trigger] es.drop_first()[i]) == es[i + 1]);
        assert(wf_edges(es.drop_first()));
        lemma_find_w_entry(es.drop_first(), k - 1);
    }
}

/// A nonzero lookup result comes from some entry.
pub proof fn lemma_find_w_nonzero(es: Seq<(NodeId, Weight)>, d: int)
    requires
        find_w(es, d) != 0,
    ensures
        exists|i: int|
            0 <= i < es.len() && (#[trigger] es[i]).0 == d && es[i].1 == find_w(es, d),
    decreases es.len(),
{
    if es.len() > 0 {
        if es[0].0 == d {
        } else {
            lemma_find_w_nonzero(es.drop_first(), d);
            let i0 = choose|i: int|
                0 <= i < es.drop_first().len() && (#[trigger] es.drop_first()[i]).0 == d
                    && es.drop_first()[i].1 == find_w(es.drop_first(), d);
            assert(es[i0 + 1] == es.drop_first()[i0]);
        }
    }
}

pub proof fn lemma_find_w_push(es: Seq<(NodeId, Weight)>, d: NodeId, w: Weight, x: int)
    requires
        !has_dst(es, d as int),
    ensures
        find_w(es.push((d, w)), x) == if x == d as int {
            w as int
        } else {
            find_w(es, x)
        },
    decreases es.len(),
{
    if es.len() == 0 {
        assert(es.push((d, w))[0] == (d, w));
        assert(es.push((d, w)).drop_first() =~= es);
    } else {
        assert(es.push((d, w))[0] == es[0]);
        assert(es.push((d, w)).drop_first() =~= es.drop_first().push((d, w)));
        assert(forall|i: int|
            0 <= i < es.drop_first().len() ==> (#[trigger] es.drop_first()[i]) == es[i + 1]);
        assert(!has_dst(es.drop_first(), d as int));
        lemma_find_w_push(es.drop_first(), d, w, x);
        if es[0].0 == d as int {
            assert(has_dst(es, d as int));
        }
    }
}

pub proof fn lemma_sum_pos_push(es: Seq<(NodeId, Weight)>, d: NodeId, w: Weight)
    ensures
        sum_pos(es.push((d, w))) == sum_pos(es) + if w > 0 {
            w as int
        } else {
            0
        },
    decreases es.len(),
{
    if es.len() == 0 {
        assert(es.push((d, w)).drop_first() =~= es);
    } else {
        assert(es.push((d, w))[0] == es[0]);
        assert(es.push((d, w)).drop_first() =~= es.drop_first().push((d, w)));
        lemma_sum_pos_push(es.drop_first(), d, w);
    }
}

pub proof fn lemma_find_w_remove(es: Seq<(NodeId, Weight)>, k: int, x: int)
    requires
        wf_edges(es),
        0 <= k < es.len(),
    ensures
        find_w(es.remove(k), x) == if es[k].0 == x {
            0
        } else {
            find_w(es, x)
        },
    decreases es.len(),
{
    es.remove_ensures(k);
    if k == 0 {
        assert(es.remove(0) =~= es.drop_first());
        if es[0].0 == x {
            assert(forall|i: int|
                0 <= i < es.drop_first().len() ==> (#[trigger] es.drop_first()[i]) == es[i + 1]);
            assert(!has_dst(es.drop_first(), x));
            lemma_find_w_absent(es.drop_first(), x);
        }
    } else {
        assert(es.remove(k)[0] == es[0]);
        assert(es.remove(k).drop_first() =~= es.drop_first().remove(k - 1));
        assert(forall|i: int|
            0 <= i < es.drop_first().len() ==> (#[trigger] es.drop_first()[i]) == es[i + 1]);
        assert(wf_edges(es.drop_first()));
        lemma_find_w_remove(es.drop_first(), k - 1, x);
        if es[0].0 == x {
            assert(es[k].0 != x);
        }
    }
}

pub proof fn lemma_sum_pos_remove(es: Seq<(NodeId, Weight)>, k: int)
    requires
        0 <= k < es.len(),
    ensures
        sum_pos(es.remove(k)) == sum_pos(es) - if es[k].1 > 0 {
            es[k].1 as int
        } else {
            0
        },
    decreases es.len(),
{
    es.remove_ensures(k);
    if k == 0 {
        assert(es.remove(0) =~= es.drop_first());
    } else {
        assert(es.remove(k)[0] == es[0]);
        assert(es.remove(k).drop_first() =~= es.drop_first().remove(k - 1));
        assert(forall|i: int|
            0 <= i < es.drop_first().len() ==> (#[trigger] es.drop_first()[i]) == es[i + 1]);
        lemma_sum_pos_remove(es.drop_first(), k - 1);
    }
}

/// The positive-sum cache is nonnegative and bounded by the list length
/// times the largest stored weight.
pub proof fn lemma_sum_pos_bound(es: Seq<(NodeId, Weight)>)
    requires
        forall|i: int| 0 <= i < es.len() ==> (#[trigger] es[i]).1 <= MAX_STORED_WEIGHT,
    ensures
        0 <= sum_pos(es) <= es.len() * MAX_STORED_WEIGHT,
    decreases es.len(),
{
    if es.len() == 0 {
    } else {
        assert(forall|i: int|
            0 <= i < es.drop_first().len() ==> (#[trigger] es.drop_first()[i]) == es[i + 1]);
        lemma_sum_pos_bound(es.drop_first());
        assert((es.len() - 1) * MAX_STORED_WEIGHT + MAX_STORED_WEIGHT == es.len()
            * MAX_STORED_WEIGHT) by (nonlinear_arith);
    }
}

/// Outgoing edges of one node, with the cached positive sum.
pub struct NodeData {
    pub edges: Vec<(NodeId, Weight)>,
    pub pos_sum: Weight,
}

impl NodeData {
    pub open spec fn wf(self) -> bool {
        &&& wf_edges(self.edges@)
        &&& self.pos_sum == sum_pos(self.edges@)
    }

    pub fn empty() -> (r: NodeData)
        ensures
            r.wf(),
            r.edges@.len() == 0,
    {
        NodeData { edges: Vec::new(), pos_sum: 0 }
    }
}

/// One context's graph: node data indexed by dense node id.
pub struct ContextGraph {
    pub nodes: Vec<NodeData>,
}

impl ContextGraph {
    /// The weight of edge `(s, d)`; 0 when absent.
    pub open spec fn node_w(self, s: int, d: int) -> int {
        if 0 <= s < self.nodes@.len() {
            find_w(self.nodes@[s].edges@, d)
        } else {
            0
        }
    }

    /// The cached positive sum of node `s`; 0 when out of range.
    pub open spec fn spec_pos_sum(self, s: int) -> int {
        if 0 <= s < self.nodes@.len() {
            sum_pos(self.nodes@[s].edges@)
        } else {
            0
        }
    }

    pub open spec fn wf(self) -> bool {
        forall|i: int| 0 <= i < self.nodes@.len() ==> (#[trigger] self.nodes@[i]).wf()
    }

    /// All stored weights are bounded by the stored-weight cap.
    pub proof fn lemma_weight_bounded(self, s: int, d: int)
        requires
            self.wf(),
        ensures
            -MAX_STORED_WEIGHT <= self.node_w(s, d) <= MAX_STORED_WEIGHT,
    {
        if 0 <= s < self.nodes@.len() && self.node_w(s, d) != 0 {
            lemma_find_w_nonzero(self.nodes@[s].edges@, d);
        }
    }

    pub fn new() -> (g: ContextGraph)
        ensures
            g.wf(),
            g.nodes@.len() == 0,
            forall|s: int, d: int| g.node_w(s, d) == 0,
    {
        ContextGraph { nodes: Vec::new() }
    }

    pub fn node_count(&self) -> (n: usize)
        ensures
            n == self.nodes@.len(),
    {
        self.nodes.len()
    }

    /// Extend the node array so that ids below `n` are in range.
    fn grow_to(&mut self, n: usize)
        requires
            old(self).wf(),
        ensures
            final(self).wf(),
            final(self).nodes@.len() >= n,
            final(self).nodes@.len() >= old(self).nodes@.len(),
            forall|i: int|
                0 <= i < old(self).nodes@.len() ==> final(self).nodes@[i] == old(self).nodes@[i],
            forall|i: int|
                old(self).nodes@.len() <= i < final(self).nodes@.len() ==> (#[trigger] final(self).nodes@[i]).edges@.len() == 0,
            forall|s: int, d: int| final(self).node_w(s, d) == old(self).node_w(s, d),
            final(self).nodes@.len() == if old(self).nodes@.len() >= n {
                old(self).nodes@.len() as int
            } else {
                n as int
            },
    {
        while self.nodes.len() < n
            invariant
                self.wf(),
                self.nodes@.len() >= old(self).nodes@.len(),
                self.nodes@.len() <= if old(self).nodes@.len() >= n {
                    old(self).nodes@.len() as int
                } else {
                    n as int
                },
                forall|i: int|
                    0 <= i < old(self).nodes@.len() ==> self.nodes@[i] == old(self).nodes@[i],
                forall|i: int|
                    old(self).nodes@.len() <= i < self.nodes@.len() ==> (#[trigger] self.nodes@[i]).edges@.len()
                        == 0,
            decreases n - self.nodes.len(),
        {
            self.nodes.push(NodeData::empty());
        }
        assert forall|s: int, d: int| self.node_w(s, d) == old(self).node_w(s, d) by {
            if old(self).nodes@.len() <= s < self.nodes@.len() {
                assert(self.nodes@[s].edges@.len() == 0);
            }
        }
    }

    /// Upsert edge `(src, dst)` to weight `w`; `w == 0` removes the edge.
    /// Both endpoints are brought into range first.
    pub fn set_edge(&mut self, src: NodeId, dst: NodeId, w: Weight)
        requires
            old(self).wf(),
            -MAX_STORED_WEIGHT <= w <= MAX_STORED_WEIGHT,
            src < usize::MAX,
            dst < usize::MAX,
        ensures
            final(self).wf(),
            forall|x: int, y: int|
                final(self).node_w(x, y) == if x == src && y == dst {
                    w as int
                } else {
                    old(self).node_w(x, y)
                },
            final(self).nodes@.len() >= old(self).nodes@.len(),
            final(self).nodes@.len() > src,
            final(self).nodes@.len() > dst,
    {
        let need = if src >= dst {
            src + 1
        } else {
            dst + 1
        };
        self.grow_to(need);
        let ghost mid = *self;

        // Find an existing entry for dst, if any.
        let es_len = self.nodes[src].edges.len();
        let mut found: usize = es_len;
        for i in 0..es_len
            invariant
                es_len == self.nodes@[src as int].edges@.len(),
                src < self.nodes@.len(),
                found == es_len || (found < i && self.nodes@[src as int].edges@[found as int].0
                    == dst),
                found == es_len ==> forall|j: int|
                    0 <= j < i ==> (#[trigger] self.nodes@[src as int].edges@[j]).0 != dst,
        {
            if found == es_len && self.nodes[src].edges[i].0 == dst {
                found = i;
            }
        }

        let ghost es0 = self.nodes@[src as int].edges@;
        if found < es_len {
            let w0 = self.nodes[src].edges[found].1;
            proof {
                lemma_find_w_remove(es0, found as int, dst as int);
                lemma_sum_pos_remove(es0, found as int);
                lemma_sum_pos_bound(es0);
                es0.remove_ensures(found as int);
            }
            let _removed = self.nodes[src].edges.remove(found);
            if w0 > 0 {
                let ps = self.nodes[src].pos_sum;
                self.nodes[src].pos_sum = ps - w0;
            }
            proof {
                let es1 = self.nodes@[src as int].edges@;
                assert(es1 =~= es0.remove(found as int));
                assert forall|i: int, j: int|
                    0 <= i < j < es1.len() implies (#[trigger] es1[i]).0 != (#[trigger] es1[j]).0 by {
                    let i0 = if i < found { i } else { i + 1 };
                    let j0 = if j < found { j } else { j + 1 };
                    assert(es1[i] == es0[i0] && es1[j] == es0[j0]);
                }
                assert(wf_edges(es1));
                assert(self.nodes@[src as int].wf());
            }
        }
        proof {
            let es1 = self.nodes@[src as int].edges@;
            if found < es_len {
                assert(!has_dst(es1, dst as int)) by {
                    es0.remove_ensures(found as int);
                    assert forall|i: int| 0 <= i < es1.len() implies (#[trigger] es1[i]).0 != dst by {
                        let i0 = if i < found { i } else { i + 1 };
                        assert(es1[i] == es0[i0]);
                        if es0[i0].0 == dst && i0 != found {
                            assert(es0[found as int].0 == dst);
                            if i0 < found {
                                assert(es0[i0].0 != es0[found as int].0);
                            } else {
                                assert(es0[found as int].0 != es0[i0].0);
                            }
                        }
                    }
                }
            } else {
                assert(!has_dst(es1, dst as int));
                lemma_find_w_absent(es1, dst as int);
            }
        }
        let ghost es1 = self.nodes@[src as int].edges@;

        if w != 0 {
            proof {
                lemma_find_w_push(es1, dst, w, dst as int);
                lemma_sum_pos_push(es1, dst, w);
                lemma_sum_pos_bound(es1);
            }
            self.nodes[src].edges.push((dst, w));
            if w > 0 {
                let ps = self.nodes[src].pos_sum;
                self.nodes[src].pos_sum = ps + w;
            }
            proof {
                let es2 = self.nodes@[src as int].edges@;
                assert(es2 =~= es1.push((dst, w)));
                assert forall|i: int, j: int|
                    0 <= i < j < es2.len() implies (#[trigger] es2[i]).0 != (#[trigger] es2[j]).0 by {
                    if j == es2.len() - 1 {
                        assert(es2[i] == es1[i]);
                        assert(!has_dst(es1, dst as int));
                    }
                }
                assert(wf_edges(es2));
            }
        }

        assert forall|x: int, y: int|
            self.node_w(x, y) == (if x == src && y == dst {
                w as int
            } else {
                old(self).node_w(x, y)
            }) by {
            if x == src {
                let esf = self.nodes@[src as int].edges@;
                if w != 0 {
                    lemma_find_w_push(es1, dst, w, y);
                } else {
                    assert(esf == es1);
                    if y == dst {
                        lemma_find_w_absent(es1, dst as int);
                    }
                }
                if y != dst {
                    if found < es_len {
                        lemma_find_w_remove(es0, found as int, y);
                    }
                }
            }
        }
    }

    /// Exec lookup of the weight of edge `(src, dst)`; 0 when absent.
    pub fn edge_weight(&self, src: NodeId, dst: NodeId) -> (w: Weight)
        requires
            self.wf(),
        ensures
            w as int == self.node_w(src as int, dst as int),
    {
        if src >= self.nodes.len() {
            return 0;
        }
        let es_len = self.nodes[src].edges.len();
        for i in 0..es_len
            invariant
                self.wf(),
                src < self.nodes@.len(),
                es_len == self.nodes@[src as int].edges@.len(),
                forall|j: int| 0 <= j < i ==> (#[trigger] self.nodes@[src as int].edges@[j]).0 != dst,
        {
            let e = self.nodes[src].edges[i];
            if e.0 == dst {
                proof {
                    lemma_find_w_entry(self.nodes@[src as int].edges@, i as int);
                }
                return e.1;
            }
        }
        proof {
            lemma_find_w_absent(self.nodes@[src as int].edges@, dst as int);
        }
        0
    }

    /// The cached positive sum of a node's outgoing weights; 0 when the node
    /// is out of range.
    pub fn pos_sum_of(&self, node: NodeId) -> (s: Weight)
        requires
            self.wf(),
        ensures
            s as int == self.spec_pos_sum(node as int),
    {
        if node >= self.nodes.len() {
            0
        } else {
            self.nodes[node].pos_sum
        }
    }

    /// All outgoing neighbours of `node`: the positive entries first, then
    /// the negative ones.  Every listed pair is a present edge, destinations
    /// are pairwise distinct, and every present edge is listed.
    pub fn neighbors(&self, node: NodeId) -> (r: Vec<(NodeId, Weight)>)
        requires
            self.wf(),
        ensures
            forall|k: int|
                0 <= k < r@.len() ==> self.node_w(node as int, (#[trigger] r@[k]).0 as int)
                    == r@[k].1 && r@[k].1 != 0,
            forall|k1: int, k2: int| 0 <= k1 < k2 < r@.len() ==> (#[trigger] r@[k1]).0 != (#[trigger] r@[k2]).0,
            forall|d: int| self.node_w(node as int, d) != 0 ==> has_dst(r@, d),
            forall|k1: int, k2: int|
                0 <= k1 < k2 < r@.len() && (#[trigger] r@[k1]).1 < 0 ==> (#[trigger] r@[k2]).1
                    < 0,
    {
        let mut r: Vec<(NodeId, Weight)> = Vec::new();
        if node >= self.nodes.len() {
            proof {
                assert(forall|d: int| self.node_w(node as int, d) == 0);
            }
            return r;
        }
        let ghost es = self.nodes@[node as int].edges@;
        let es_len = self.nodes[node].edges.len();
        let ghost mut map1: Seq<int> = Seq::empty();
        for i in 0..es_len
            invariant
                self.wf(),
                node < self.nodes@.len(),
                es == self.nodes@[node as int].edges@,
                es_len == es.len(),
                map1.len() == r@.len(),
                forall|k: int|
                    0 <= k < r@.len() ==> 0 <= #[trigger] map1[k] < i && r@[k] == es[map1[k]]
                        && es[map1[k]].1 > 0,
                forall|k1: int, k2: int| 0 <= k1 < k2 < r@.len() ==> map1[k1] < map1[k2],
                forall|j: int| 0 <= j < i && (#[trigger] es[j]).1 > 0 ==> has_dst(r@, es[j].0 as int),
        {
            let e = self.nodes[node].edges[i];
            if e.1 > 0 {
                let ghost rold = r@;
                r.push(e);
                proof {
                    map1 = map1.push(i as int);
                    assert(r@[r@.len() - 1] == es[i as int]);
                    assert forall|j: int|
                        0 <= j < i + 1 && (#[trigger] es[j]).1 > 0 implies has_dst(
                        r@,
                        es[j].0 as int,
                    ) by {
                        if j < i {
                            let k0 = choose|k: int|
                                0 <= k < rold.len() && (#[trigger] rold[k]).0 == es[j].0;
                            assert(r@[k0] == rold[k0]);
                        } else {
                            assert(r@[r@.len() - 1].0 == es[j].0);
                        }
                    }
                }
            }
        }
        let ghost m = r@.len() as int;
        let ghost r_pos = r@;
        let ghost mut map2: Seq<int> = Seq::empty();
        for i in 0..es_len
            invariant
                self.wf(),
                node < self.nodes@.len(),
                es == self.nodes@[node as int].edges@,
                es_len == es.len(),
                m <= r@.len(),
                map1.len() == m,
                map2.len() == r@.len() - m,
                forall|k: int|
                    0 <= k < m ==> 0 <= #[trigger] map1[k] < es.len() && r@[k] == es[map1[k]]
                        && es[map1[k]].1 > 0,
                forall|k1: int, k2: int| 0 <= k1 < k2 < m ==> map1[k1] < map1[k2],
                forall|k: int|
                    m <= k < r@.len() ==> 0 <= #[trigger] map2[k - m] < i && r@[k] == es[map2[k
                        - m]] && es[map2[k - m]].1 < 0,
                forall|k1: int, k2: int| 0 <= k1 < k2 < r@.len() - m ==> map2[k1] < map2[k2],
                forall|j: int| 0 <= j < es.len() && (#[trigger] es[j]).1 > 0 ==> has_dst(r@, es[j].0 as int),
                forall|j: int| 0 <= j < i && (#[trigger] es[j]).1 < 0 ==> has_dst(r@, es[j].0 as int),
        {
            let e = self.nodes[node].edges[i];
            if e.1 < 0 {
                let ghost rold = r@;
                r.push(e);
                proof {
                    let ghost map2old = map2;
                    map2 = map2.push(i as int);
                    assert(r@[r@.len() - 1] == es[i as int]);
                    assert forall|k1: int, k2: int|
                        0 <= k1 < k2 < r@.len() - m implies map2[k1] < map2[k2] by {
                        if k2 == r@.len() - 1 - m {
                            let kk = k1 + m;
                            assert(m <= kk < rold.len());
                            assert(0 <= map2old[kk - m] < i as int);
                            assert(map2[k1] == map2old[k1]);
                            assert(map2[k2] == i as int);
                        } else {
                            assert(map2[k1] == map2old[k1] && map2[k2] == map2old[k2]);
                        }
                    }
                    assert forall|j: int|
                        0 <= j < es.len() && (#[trigger] es[j]).1 > 0 implies has_dst(
                        r@,
                        es[j].0 as int,
                    ) by {
                        let k0 = choose|k: int|
                            0 <= k < rold.len() && (#[trigger] rold[k]).0 == es[j].0;
                        assert(r@[k0] == rold[k0]);
                    }
                    assert forall|j: int|
                        0 <= j < i + 1 && (#[trigger] es[j]).1 < 0 implies has_dst(
                        r@,
                        es[j].0 as int,
                    ) by {
                        if j < i {
                            let k0 = choose|k: int|
                                0 <= k < rold.len() && (#[trigger] rold[k]).0 == es[j].0;
                            assert(r@[k0] == rold[k0]);
                        } else {
                            assert(r@[r@.len() - 1].0 == es[j].0);
                        }
                    }
                }
            }
        }
        proof {
            assert forall|k: int|
                0 <= k < r@.len() implies self.node_w(node as int, (#[trigger] r@[k]).0 as int)
                == r@[k].1 && r@[k].1 != 0 by {
                if k < m {
                    assert(r@[k] == es[map1[k]]);
                    lemma_find_w_entry(es, map1[k]);
                } else {
                    assert(r@[k] == es[map2[k - m]]);
                    lemma_find_w_entry(es, map2[k - m]);
                }
            }
            assert forall|k1: int, k2: int| 0 <= k1 < k2 < r@.len() implies (#[trigger] r@[k1]).0
                != (#[trigger] r@[k2]).0 by {
                let j1 = if k1 < m { map1[k1] } else { map2[k1 - m] };
                let j2 = if k2 < m { map1[k2] } else { map2[k2 - m] };
                assert(r@[k1] == es[j1] && r@[k2] == es[j2]);
                if j1 != j2 {
                    if j1 < j2 {
                        assert(es[j1].0 != es[j2].0);
                    } else {
                        assert(es[j2].0 != es[j1].0);
                    }
                } else {
                    assert(es[j1].1 > 0 && es[j2].1 < 0);
                }
            }
            assert forall|d: int| self.node_w(node as int, d) != 0 implies has_dst(r@, d) by {
                lemma_find_w_nonzero(es, d);
                let j = choose|j: int|
                    0 <= j < es.len() && (#[trigger] es[j]).0 == d && es[j].1 == find_w(es, d);
            }
            assert forall|k1: int, k2: int|
                0 <= k1 < k2 < r@.len() && (#[trigger] r@[k1]).1 < 0 implies (#[trigger] r@[k2]).1
                < 0 by {
                assert(k1 >= m) by {
                    if k1 < m {
                        assert(r@[k1] == es[map1[k1]]);
                    }
                }
                assert(r@[k2] == es[map2[k2 - m]]);
            }
        }
        r
    }
}


/// First-match semantics of `find_w`: the entry at the first matching index
/// is the lookup result.
pub proof fn lemma_find_w_first(es: Seq<(NodeId, Weight)>, k: int, d: int)
    requires
        0 <= k < es.len(),
        es[k].0 == d,
        forall|j: int| 0 <= j < k ==> (#[trigger] es[j]).0 != d,
    ensures
        find_w(es, d) == es[k].1,
    decreases es.len(),
{
    if k == 0 {
    } else {
        assert(forall|i: int|
            0 <= i < es.drop_first().len() ==> (#[trigger] es.drop_first()[i]) == es[i + 1]);
        lemma_find_w_first(es.drop_first(), k - 1, d);
    }
}

} // verus!
