//! The multi-context composer: node registry, named context graphs and the
//! null aggregate, and the composition rules applied on every edge write.
//!
//! The null context (empty name) aggregates the named contexts: for a pair
//! whose source is not a user node and which is never written directly into
//! the null context, the null weight equals the sum of the per-context
//! weights.  Edges whose source is a user node are instead broadcast to every
//! context.  Each context also carries a per-ego rank cache: scores fed back
//! by the caller from the external random-walk estimator, dropped whenever a
//! write touches that ego's outgoing edges.

use vstd::prelude::*;
use crate::graph::ContextGraph;
use crate::nodes::{NodeInfo, NodeKind, kind_from_name, spec_kind_from_name};
use crate::{NodeId, Weight, EPSILON_INV, MAX_CONTEXTS, MAX_EDGE_AMOUNT, MAX_NORM_WEIGHT, MAX_STORED_WEIGHT, WEIGHT_SCALE};

verus! {

/// One context: its name, its graph, and the per-ego rank cache.
pub struct ContextState {
    pub name: String,
    pub graph: ContextGraph,
    pub ranks: Vec<Option<Vec<(NodeId, Weight)>>>,
}

/// Index of the context with the given name; -1 when absent.
pub open spec fn find_ctx(ctxs: Seq<ContextState>, name: Seq<char>) -> int
    decreases ctxs.len(),
{
    if ctxs.len() == 0 {
        -1
    } else if ctxs[0].name@ == name {
        0
    } else {
        let r = find_ctx(ctxs.drop_first(), name);
        if r < 0 {
            -1
        } else {
            r + 1
        }
    }
}

/// The weight of `(s, d)` in the context at index `c`; 0 when out of range.
pub open spec fn w_of(ctxs: Seq<ContextState>, c: int, s: int, d: int) -> int {
    if 0 <= c < ctxs.len() {
        ctxs[c].graph.node_w(s, d)
    } else {
        0
    }
}

/// The weight of `(s, d)` in the null context; 0 when the null context does
/// not exist yet.
pub open spec fn null_w(ctxs: Seq<ContextState>, s: int, d: int) -> int {
    w_of(ctxs, find_ctx(ctxs, Seq::<char>::empty()), s, d)
}

/// Sum of the weights of `(s, d)` over the named (non-null) contexts.
pub open spec fn named_sum(ctxs: Seq<ContextState>, s: int, d: int) -> int
    decreases ctxs.len(),
{
    if ctxs.len() == 0 {
        0
    } else {
        (if ctxs[0].name@.len() == 0 {
            0int
        } else {
            ctxs[0].graph.node_w(s, d)
        }) + named_sum(ctxs.drop_first(), s, d)
    }
}

/// Number of named (non-null) contexts.
pub open spec fn named_count(ctxs: Seq<ContextState>) -> int
    decreases ctxs.len(),
{
    if ctxs.len() == 0 {
        0
    } else {
        (if ctxs[0].name@.len() == 0 {
            0int
        } else {
            1int
        }) + named_count(ctxs.drop_first())
    }
}

pub proof fn lemma_find_ctx_range(ctxs: Seq<ContextState>, name: Seq<char>)
    ensures
        -1 <= find_ctx(ctxs, name) < ctxs.len(),
        find_ctx(ctxs, name) >= 0 ==> ctxs[find_ctx(ctxs, name)].name@ == name,
        find_ctx(ctxs, name) < 0 ==> forall|i: int|
            0 <= i < ctxs.len() ==> (#[trigger] ctxs[i]).name@ != name,
    decreases ctxs.len(),
{
    if ctxs.len() > 0 && ctxs[0].name@ != name {
        lemma_find_ctx_range(ctxs.drop_first(), name);
        assert(forall|i: int|
            0 <= i < ctxs.drop_first().len() ==> (#[trigger] ctxs.drop_first()[i]) == ctxs[i + 1]);
        if find_ctx(ctxs, name) < 0 {
            assert forall|i: int| 0 <= i < ctxs.len() implies (#[trigger] ctxs[i]).name@
                != name by {
                if i > 0 {
                    assert(ctxs.drop_first()[i - 1] == ctxs[i]);
                }
            }
        }
    }
}

/// When context names are pairwise distinct, any context carrying the name
/// is the one `find_ctx` returns.
pub proof fn lemma_find_ctx_unique(ctxs: Seq<ContextState>, name: Seq<char>, c: int)
    requires
        0 <= c < ctxs.len(),
        ctxs[c].name@ == name,
        forall|i: int, j: int|
            0 <= i < j < ctxs.len() ==> (#[trigger] ctxs[i]).name@ != (#[trigger] ctxs[j]).name@,
    ensures
        find_ctx(ctxs, name) == c,
    decreases ctxs.len(),
{
    lemma_find_ctx_range(ctxs, name);
    let r = find_ctx(ctxs, name);
    if r != c {
        if r < c {
            assert(ctxs[r].name@ != ctxs[c].name@);
        } else {
            assert(ctxs[c].name@ != ctxs[r].name@);
        }
    }
}

/// `find_ctx` depends only on the context names.
pub proof fn lemma_find_ctx_names(a: Seq<ContextState>, b: Seq<ContextState>, name: Seq<char>)
    requires
        a.len() == b.len(),
        forall|i: int| 0 <= i < a.len() ==> (#[trigger] a[i]).name@ == (#[trigger] b[i]).name@,
    ensures
        find_ctx(a, name) == find_ctx(b, name),
    decreases a.len(),
{
    if a.len() > 0 {
        assert(forall|i: int|
            0 <= i < a.drop_first().len() ==> (#[trigger] a.drop_first()[i]) == a[i + 1]);
        assert(forall|i: int|
            0 <= i < b.drop_first().len() ==> (#[trigger] b.drop_first()[i]) == b[i + 1]);
        lemma_find_ctx_names(a.drop_first(), b.drop_first(), name);
    }
}

/// Updating one context in place (same name) shifts `named_sum` by the
/// difference at that pair, and only at that context's weight.
pub proof fn lemma_named_sum_update(
    ctxs: Seq<ContextState>,
    c: int,
    cs: ContextState,
    s: int,
    d: int,
)
    requires
        0 <= c < ctxs.len(),
        cs.name@ == ctxs[c].name@,
    ensures
        named_sum(ctxs.update(c, cs), s, d) == named_sum(ctxs, s, d) + if ctxs[c].name@.len()
            == 0 {
            0int
        } else {
            cs.graph.node_w(s, d) - ctxs[c].graph.node_w(s, d)
        },
        named_count(ctxs.update(c, cs)) == named_count(ctxs),
    decreases ctxs.len(),
{
    let u = ctxs.update(c, cs);
    assert(u.len() == ctxs.len());
    if c == 0 {
        assert(u[0] == cs);
        assert(u.drop_first() =~= ctxs.drop_first());
    } else {
        assert(u[0] == ctxs[0]);
        assert(u.drop_first() =~= ctxs.drop_first().update(c - 1, cs));
        assert(forall|i: int|
            0 <= i < ctxs.drop_first().len() ==> (#[trigger] ctxs.drop_first()[i]) == ctxs[i + 1]);
        lemma_named_sum_update(ctxs.drop_first(), c - 1, cs, s, d);
    }
}

/// Appending a context adds its weight (if named) to the sum.
pub proof fn lemma_named_sum_push(ctxs: Seq<ContextState>, cs: ContextState, s: int, d: int)
    ensures
        named_sum(ctxs.push(cs), s, d) == named_sum(ctxs, s, d) + if cs.name@.len() == 0 {
            0int
        } else {
            cs.graph.node_w(s, d)
        },
        named_count(ctxs.push(cs)) == named_count(ctxs) + if cs.name@.len() == 0 {
            0int
        } else {
            1int
        },
        find_ctx(ctxs.push(cs), cs.name@) >= 0,
    decreases ctxs.len(),
{
    if ctxs.len() == 0 {
        assert(ctxs.push(cs)[0] == cs);
        assert(ctxs.push(cs).drop_first() =~= ctxs);
    } else {
        assert(ctxs.push(cs)[0] == ctxs[0]);
        assert(ctxs.push(cs).drop_first() =~= ctxs.drop_first().push(cs));
        lemma_named_sum_push(ctxs.drop_first(), cs, s, d);
    }
}

/// Appending a context leaves lookups of other names unchanged, and resolves
/// the new name if it was absent.
pub proof fn lemma_find_ctx_push(ctxs: Seq<ContextState>, cs: ContextState, name: Seq<char>)
    ensures
        find_ctx(ctxs, name) >= 0 ==> find_ctx(ctxs.push(cs), name) == find_ctx(ctxs, name),
        find_ctx(ctxs, name) < 0 && cs.name@ == name ==> find_ctx(ctxs.push(cs), name)
            == ctxs.len(),
        find_ctx(ctxs, name) < 0 && cs.name@ != name ==> find_ctx(ctxs.push(cs), name) < 0,
    decreases ctxs.len(),
{
    if ctxs.len() == 0 {
        assert(ctxs.push(cs)[0] == cs);
        assert(ctxs.push(cs).drop_first() =~= ctxs);
    } else {
        assert(ctxs.push(cs)[0] == ctxs[0]);
        assert(ctxs.push(cs).drop_first() =~= ctxs.drop_first().push(cs));
        lemma_find_ctx_push(ctxs.drop_first(), cs, name);
    }
}

/// If every named context holds weight at most `b` in magnitude at `(s, d)`,
/// the named sum is at most `named_count * b` in magnitude.
pub proof fn lemma_named_sum_bound(ctxs: Seq<ContextState>, s: int, d: int, b: int)
    requires
        b >= 0,
        forall|c: int|
            0 <= c < ctxs.len() && (#[trigger] ctxs[c]).name@.len() != 0 ==> -b <= ctxs[c].graph.node_w(
                s,
                d,
            ) <= b,
    ensures
        -named_count(ctxs) * b <= named_sum(ctxs, s, d) <= named_count(ctxs) * b,
        named_count(ctxs) >= 0,
    decreases ctxs.len(),
{
    if ctxs.len() == 0 {
    } else {
        assert(forall|i: int|
            0 <= i < ctxs.drop_first().len() ==> (#[trigger] ctxs.drop_first()[i]) == ctxs[i + 1]);
        lemma_named_sum_bound(ctxs.drop_first(), s, d, b);
        let k = named_count(ctxs.drop_first());
        let sr = named_sum(ctxs.drop_first(), s, d);
        let h: int = if ctxs[0].name@.len() == 0 {
            0int
        } else {
            ctxs[0].graph.node_w(s, d)
        };
        assert(named_sum(ctxs, s, d) == h + sr);
        assert(ctxs[0].name@.len() != 0 ==> -b <= ctxs[0].graph.node_w(s, d) <= b);
        assert(-b <= h <= b);
        assert(k * b + b == (k + 1) * b) by (nonlinear_arith);
        assert((-k) * b == -(k * b)) by (nonlinear_arith);
        assert((-(k + 1)) * b == -((k + 1) * b)) by (nonlinear_arith);
        if ctxs[0].name@.len() == 0 {
            assert(named_count(ctxs) == k);
            assert(-(k * b) <= h + sr <= k * b);
        } else {
            assert(named_count(ctxs) == k + 1);
            assert(-((k + 1) * b) <= h + sr <= (k + 1) * b);
        }
    }
}

/// The augmented multi-context graph engine.
pub struct AugMultiGraph {
    pub node_count: usize,
    pub node_infos: Vec<NodeInfo>,
    pub dummy_info: NodeInfo,
    pub contexts: Vec<ContextState>,
    pub zero_node: String,
}

/// Kind of a node id in a registry; unknown when out of range.
pub open spec fn kind_at(infos: Seq<NodeInfo>, id: int) -> NodeKind {
    if 0 <= id < infos.len() {
        infos[id].kind
    } else {
        NodeKind::Unknown
    }
}

/// The rank cache entry for ego `e` in context index `c` of a context list.
pub open spec fn ranks_at(ctxs: Seq<ContextState>, c: int, e: int) -> Option<
    Seq<(NodeId, Weight)>,
> {
    if 0 <= c < ctxs.len() && 0 <= e < ctxs[c].ranks@.len() {
        match ctxs[c].ranks@[e] {
            Some(v) => Some(v@),
            None => None,
        }
    } else {
        None
    }
}

impl AugMultiGraph {
    /// Kind of a node id; unknown when out of range.
    pub open spec fn kind_of(self, id: int) -> NodeKind {
        kind_at(self.node_infos@, id)
    }

    pub open spec fn is_user(self, id: int) -> bool {
        self.kind_of(id) == NodeKind::User
    }

    /// First node id carrying the name; -1 when absent.
    pub open spec fn id_of(self, name: Seq<char>) -> int {
        find_node(self.node_infos@, name)
    }

    /// The weight of `(s, d)` in the context named `name`; 0 when absent.
    pub open spec fn ctx_w(self, name: Seq<char>, s: int, d: int) -> int {
        w_of(self.contexts@, find_ctx(self.contexts@, name), s, d)
    }

    /// The rank cache entry for ego `e` in context index `c`.
    pub open spec fn ranks_of(self, c: int, e: int) -> Option<Seq<(NodeId, Weight)>> {
        ranks_at(self.contexts@, c, e)
    }

    /// Registry well-formedness: counts agree, names are unique, kinds
    /// follow from names.
    pub open spec fn wf_registry(self) -> bool {
        &&& self.node_count == self.node_infos@.len()
        &&& forall|i: int, j: int|
            0 <= i < j < self.node_infos@.len() ==> (#[trigger] self.node_infos@[i]).name@ != (
            #[trigger] self.node_infos@[j]).name@
        &&& forall|i: int|
            0 <= i < self.node_infos@.len() ==> (#[trigger] self.node_infos@[i]).kind
                == spec_kind_from_name(self.node_infos@[i].name@)
    }

    /// Context-level well-formedness: graphs are well formed, context names
    /// are unique, and the context count is capped.
    pub open spec fn wf_contexts(self) -> bool {
        &&& forall|c: int| 0 <= c < self.contexts@.len() ==> (#[trigger] self.contexts@[c]).graph.wf()
        &&& forall|i: int, j: int|
            0 <= i < j < self.contexts@.len() ==> (#[trigger] self.contexts@[i]).name@ != (
            #[trigger] self.contexts@[j]).name@
        &&& self.contexts@.len() <= MAX_CONTEXTS
    }

    /// Weight bounds: only registered sources carry edges; named-context
    /// weights are bounded by the write cap; null weights of user-sourced
    /// pairs as well; and for every pair the null weight differs from the
    /// named sum by at most `(named_count + 1) * MAX_EDGE_AMOUNT`.
    pub open spec fn wf_weights(self) -> bool {
        &&& forall|c: int, s: int, d: int|
            s >= self.node_infos@.len() || d >= self.node_infos@.len() ==> #[trigger] w_of(
                self.contexts@,
                c,
                s,
                d,
            ) == 0
        &&& forall|c: int, s: int, d: int|
            0 <= c < self.contexts@.len() && self.contexts@[c].name@.len() != 0
                ==> -MAX_EDGE_AMOUNT <= #[trigger] self.contexts@[c].graph.node_w(s, d)
                <= MAX_EDGE_AMOUNT
        &&& forall|s: int, d: int|
            self.is_user(s) ==> -MAX_EDGE_AMOUNT <= #[trigger] null_w(self.contexts@, s, d)
                <= MAX_EDGE_AMOUNT
        &&& forall|s: int, d: int|
            -(named_count(self.contexts@) + 1) * MAX_EDGE_AMOUNT <= #[trigger] null_w(
                self.contexts@,
                s,
                d,
            ) - named_sum(self.contexts@, s, d) <= (named_count(self.contexts@) + 1)
                * MAX_EDGE_AMOUNT
    }

    pub open spec fn wf(self) -> bool {
        &&& self.wf_registry()
        &&& self.wf_contexts()
        &&& self.wf_weights()
    }

    /// Every stored weight, in any context, fits under the stored-weight cap.
    pub proof fn lemma_all_weights_stored(self, c: int, s: int, d: int)
        requires
            self.wf(),
            0 <= c < self.contexts@.len(),
        ensures
            -MAX_STORED_WEIGHT < self.contexts@[c].graph.node_w(s, d) < MAX_STORED_WEIGHT,
    {
        let ctxs = self.contexts@;
        if ctxs[c].name@.len() != 0 {
        } else {
            lemma_find_ctx_unique(ctxs, ctxs[c].name@, c);
            assert(ctxs[c].name@ =~= Seq::<char>::empty());
            assert(null_w(ctxs, s, d) == ctxs[c].graph.node_w(s, d));
            lemma_named_sum_bound(ctxs, s, d, MAX_EDGE_AMOUNT as int);
            let k = named_count(ctxs);
            assert(k <= MAX_CONTEXTS as int) by {
                lemma_named_count_le_len(ctxs);
            }
            assert(k * MAX_EDGE_AMOUNT + (k + 1) * MAX_EDGE_AMOUNT == (2 * k + 1)
                * MAX_EDGE_AMOUNT) by (nonlinear_arith);
            assert((2 * k + 1) * MAX_EDGE_AMOUNT <= (2 * MAX_CONTEXTS + 1) * MAX_EDGE_AMOUNT) by (nonlinear_arith)
                requires k <= MAX_CONTEXTS as int && k >= 0;
        }
    }
}

pub proof fn lemma_named_count_le_len(ctxs: Seq<ContextState>)
    ensures
        0 <= named_count(ctxs) <= ctxs.len(),
    decreases ctxs.len(),
{
    if ctxs.len() > 0 {
        lemma_named_count_le_len(ctxs.drop_first());
    }
}

/// First node id carrying the name; -1 when absent.
pub open spec fn find_node(infos: Seq<NodeInfo>, name: Seq<char>) -> int
    decreases infos.len(),
{
    if infos.len() == 0 {
        -1
    } else if infos[0].name@ == name {
        0
    } else {
        let r = find_node(infos.drop_first(), name);
        if r < 0 {
            -1
        } else {
            r + 1
        }
    }
}

pub proof fn lemma_find_node_range(infos: Seq<NodeInfo>, name: Seq<char>)
    ensures
        -1 <= find_node(infos, name) < infos.len(),
        find_node(infos, name) >= 0 ==> infos[find_node(infos, name)].name@ == name,
        find_node(infos, name) < 0 ==> forall|i: int|
            0 <= i < infos.len() ==> (#[trigger] infos[i]).name@ != name,
    decreases infos.len(),
{
    if infos.len() > 0 && infos[0].name@ != name {
        lemma_find_node_range(infos.drop_first(), name);
        assert(forall|i: int|
            0 <= i < infos.drop_first().len() ==> (#[trigger] infos.drop_first()[i]) == infos[i
                + 1]);
        if find_node(infos, name) < 0 {
            assert forall|i: int| 0 <= i < infos.len() implies (#[trigger] infos[i]).name@
                != name by {
                if i > 0 {
                    assert(infos.drop_first()[i - 1] == infos[i]);
                }
            }
        }
    }
}

pub proof fn lemma_find_node_unique(infos: Seq<NodeInfo>, name: Seq<char>, k: int)
    requires
        0 <= k < infos.len(),
        infos[k].name@ == name,
        forall|i: int, j: int|
            0 <= i < j < infos.len() ==> (#[trigger] infos[i]).name@ != (#[trigger] infos[j]).name@,
    ensures
        find_node(infos, name) == k,
{
    lemma_find_node_range(infos, name);
    let r = find_node(infos, name);
    if r != k {
        if r < k {
            assert(infos[r].name@ != infos[k].name@);
        } else {
            assert(infos[k].name@ != infos[r].name@);
        }
    }
}

pub proof fn lemma_find_node_push(infos: Seq<NodeInfo>, info: NodeInfo, name: Seq<char>)
    ensures
        find_node(infos, name) >= 0 ==> find_node(infos.push(info), name) == find_node(
            infos,
            name,
        ),
        find_node(infos, name) < 0 && info.name@ == name ==> find_node(infos.push(info), name)
            == infos.len(),
        find_node(infos, name) < 0 && info.name@ != name ==> find_node(infos.push(info), name)
            < 0,
    decreases infos.len(),
{
    if infos.len() == 0 {
        assert(infos.push(info)[0] == info);
        assert(infos.push(info).drop_first() =~= infos);
    } else {
        assert(infos.push(info)[0] == infos[0]);
        assert(infos.push(info).drop_first() =~= infos.drop_first().push(info));
        lemma_find_node_push(infos.drop_first(), info, name);
    }
}

/// Exec string equality over views.
pub fn str_eq(a: &str, b: &str) -> (r: bool)
    ensures
        r == (a@ == b@),
{
    let sa = a.to_owned();
    let sb = b.to_owned();
    sa == sb
}

impl AugMultiGraph {
    /// A fresh engine: no nodes, no contexts, the default zero-node name.
    pub fn new() -> (r: AugMultiGraph)
        ensures
            r.wf(),
            r.node_infos@.len() == 0,
            r.contexts@.len() == 0,
            r.zero_node@ == "U000000000000"@,
    {
        let r = AugMultiGraph {
            node_count: 0,
            node_infos: Vec::new(),
            dummy_info: NodeInfo::for_name(""),
            contexts: Vec::new(),
            zero_node: String::from_str("U000000000000"),
        };
        proof {
            assert(forall|s: int, d: int| null_w(r.contexts@, s, d) == 0);
            assert(forall|s: int, d: int| named_sum(r.contexts@, s, d) == 0);
        }
        r
    }

    /// Drop all nodes and contexts.
    pub fn reset(&mut self)
        ensures
            final(self).wf(),
            final(self).node_infos@.len() == 0,
            final(self).contexts@.len() == 0,
            final(self).zero_node@ == old(self).zero_node@,
    {
        self.node_count = 0;
        self.node_infos = Vec::new();
        self.contexts = Vec::new();
        proof {
            assert(forall|s: int, d: int| null_w(self.contexts@, s, d) == 0);
            assert(forall|s: int, d: int| named_sum(self.contexts@, s, d) == 0);
        }
    }

    /// Whether a node with this name exists.
    pub fn node_exists(&self, node_name: &str) -> (r: bool)
        requires
            self.wf(),
        ensures
            r == (self.id_of(node_name@) >= 0),
    {
        let n = self.node_infos.len();
        for i in 0..n
            invariant
                n == self.node_infos@.len(),
                forall|j: int| 0 <= j < i ==> (#[trigger] self.node_infos@[j]).name@ != node_name@,
        {
            if str_eq(self.node_infos[i].name.as_str(), node_name) {
                proof {
                    lemma_find_node_range(self.node_infos@, node_name@);
                }
                return true;
            }
        }
        proof {
            lemma_find_node_range(self.node_infos@, node_name@);
        }
        false
    }

    /// Resolve a name to its id, creating the node when absent.  Ids are
    /// dense and stable: existing records are never changed.
    pub fn find_or_add_node_by_name(&mut self, node_name: &str) -> (id: NodeId)
        requires
            (*old(self)).wf(),
        ensures
            final(self).wf(),
            final(self).contexts@ == old(self).contexts@,
            final(self).zero_node@ == old(self).zero_node@,
            id < final(self).node_infos@.len(),
            final(self).node_infos@[id as int].name@ == node_name@,
            final(self).id_of(node_name@) == id,
            // stability: existing records are preserved
            forall|i: int|
                0 <= i < old(self).node_infos@.len() ==> final(self).node_infos@[i] == old(self).node_infos@[i],
            (*old(self)).id_of(node_name@) >= 0 ==> final(self).node_infos@ == old(self).node_infos@
                && id == (*old(self)).id_of(node_name@),
            (*old(self)).id_of(node_name@) < 0 ==> final(self).node_infos@ == old(self).node_infos@.push(final(self).node_infos@[id as int]) && id == old(self).node_infos@.len() && final(self).node_infos@[id as int].kind == spec_kind_from_name(
                node_name@,
            ) && final(self).node_infos@[id as int].marks@ == Seq::<u64>::new(
                crate::bloom::BLOOM_FILTER_SIZE as nat,
                |i: int| 0u64,
            ),
    {
        let n = self.node_infos.len();
        for i in 0..n
            invariant
                n == self.node_infos@.len(),
                self.wf(),
                forall|j: int| 0 <= j < i ==> (#[trigger] self.node_infos@[j]).name@ != node_name@,
        {
            if str_eq(self.node_infos[i].name.as_str(), node_name) {
                proof {
                    lemma_find_node_unique(self.node_infos@, node_name@, i as int);
                }
                return i;
            }
        }
        proof {
            lemma_find_node_range(self.node_infos@, node_name@);
        }
        let info = NodeInfo::for_name(node_name);
        let ghost infos0 = self.node_infos@;
        self.node_infos.push(info);
        self.node_count = self.node_infos.len();
        proof {
            lemma_find_node_push(infos0, info, node_name@);
            assert(self.node_infos@[infos0.len() as int].name@ == node_name@);
            assert forall|s: int, d: int|
                self.is_user(s) implies -MAX_EDGE_AMOUNT <= #[trigger] null_w(self.contexts@, s, d)
                <= MAX_EDGE_AMOUNT by {
                if s < infos0.len() {
                    assert((*old(self)).is_user(s));
                } else {
                    // the new node carries no edges yet, in any context
                    assert(w_of(self.contexts@, find_ctx(self.contexts@, Seq::<char>::empty()), s, d)
                        == 0);
                }
            }
        }
        n
    }

    /// Record of a node id; an empty record when the id is unknown.
    pub fn node_info_from_id(&mut self, node_id: NodeId) -> (r: &NodeInfo)
        requires
            (*old(self)).wf(),
        ensures
            final(self).wf(),
            final(self).node_infos@ == old(self).node_infos@,
            final(self).contexts@ == old(self).contexts@,
            final(self).node_count == old(self).node_count,
            final(self).zero_node@ == old(self).zero_node@,
            node_id < old(self).node_infos@.len() ==> *r == old(self).node_infos@[node_id as int],
            node_id >= old(self).node_infos@.len() ==> r.kind == NodeKind::Unknown && r.name@
                == Seq::<char>::empty(),
    {
        if node_id < self.node_infos.len() {
            &self.node_infos[node_id]
        } else {
            self.dummy_info = NodeInfo::for_name("");
            proof {
                reveal_strlit("");
                assert(self.dummy_info.name@ =~= Seq::<char>::empty());
            }
            &self.dummy_info
        }
    }

    /// All node names, in id order.
    pub fn read_node_list(&self) -> (r: Vec<(String,)>)
        ensures
            r@.len() == self.node_infos@.len(),
            forall|i: int|
                0 <= i < r@.len() ==> (#[trigger] r@[i]).0@ == self.node_infos@[i].name@,
    {
        let mut r: Vec<(String,)> = Vec::new();
        let n = self.node_infos.len();
        for i in 0..n
            invariant
                n == self.node_infos@.len(),
                r@.len() == i,
                forall|j: int|
                    0 <= j < i ==> (#[trigger] r@[j]).0@ == self.node_infos@[j].name@,
        {
            r.push((self.node_infos[i].name.clone(),));
        }
        r
    }
}

impl AugMultiGraph {
    /// The weight a freshly created named context is seeded with: user-sourced
    /// pairs are copied from the null context, everything else starts at zero.
    pub open spec fn seed_w(self, s: int, d: int) -> int {
        if self.is_user(s) {
            null_w(self.contexts@, s, d)
        } else {
            0
        }
    }

    /// Exec lookup of a context index by name.
    pub fn context_index(&self, context: &str) -> (r: Option<usize>)
        requires
            self.wf(),
        ensures
            match r {
                Some(c) => c < self.contexts@.len() && find_ctx(self.contexts@, context@)
                    == c && self.contexts@[c as int].name@ == context@,
                None => find_ctx(self.contexts@, context@) < 0,
            },
    {
        self.ctx_index(context)
    }

    /// Exec lookup of a context index by name.
    fn ctx_index(&self, context: &str) -> (r: Option<usize>)
        requires
            self.wf(),
        ensures
            match r {
                Some(c) => c < self.contexts@.len() && find_ctx(self.contexts@, context@)
                    == c && self.contexts@[c as int].name@ == context@,
                None => find_ctx(self.contexts@, context@) < 0,
            },
    {
        let n = self.contexts.len();
        for c in 0..n
            invariant
                self.wf(),
                n == self.contexts@.len(),
                forall|j: int| 0 <= j < c ==> (#[trigger] self.contexts@[j]).name@ != context@,
        {
            if str_eq(self.contexts[c].name.as_str(), context) {
                proof {
                    lemma_find_ctx_unique(self.contexts@, context@, c as int);
                }
                return Some(c);
            }
        }
        proof {
            lemma_find_ctx_range(self.contexts@, context@);
        }
        None
    }

    /// Create a context if it does not exist yet.  Creation of a named
    /// context copies every user-sourced edge of the null context into it,
    /// so that the cross-context broadcast of user edges holds from the
    /// start.  Creating an existing context is a no-op, as is creation
    /// beyond the context cap.
    pub fn create_context(&mut self, context: &str)
        requires
            (*old(self)).wf(),
        ensures
            final(self).wf(),
            final(self).node_infos@ == old(self).node_infos@,
            final(self).node_count == old(self).node_count,
            final(self).zero_node@ == old(self).zero_node@,
            find_ctx(old(self).contexts@, context@) >= 0 ==> final(self).contexts@ == old(self).contexts@,
            find_ctx(old(self).contexts@, context@) < 0 && old(self).contexts@.len()
                >= MAX_CONTEXTS ==> final(self).contexts@ == old(self).contexts@,
            find_ctx(old(self).contexts@, context@) < 0 && old(self).contexts@.len()
                < MAX_CONTEXTS ==> final(self).contexts@.len() == old(self).contexts@.len() + 1
                && (forall|c: int|
                0 <= c < old(self).contexts@.len() ==> final(self).contexts@[c] == old(self).contexts@[c]) && final(self).contexts@.last().name@ == context@ && final(self).contexts@.last().ranks@.len() == 0 && (forall|s: int, d: int|
                #[trigger] final(self).contexts@.last().graph.node_w(s, d) == if context@.len()
                    != 0 {
                    (*old(self)).seed_w(s, d)
                } else {
                    0
                }),
    {
        match self.ctx_index(context) {
            Some(_) => {
                return ;
            },
            None => {},
        }
        if self.contexts.len() >= MAX_CONTEXTS {
            return ;
        }
        let mut graph = ContextGraph::new();
        let null_idx_opt = if context.is_empty() {
            None
        } else {
            self.ctx_index("")
        };
        match null_idx_opt {
            Some(nc) => {
                proof {
                    reveal_strlit("");
                    assert(""@ =~= Seq::<char>::empty());
                    assert(find_ctx(self.contexts@, Seq::<char>::empty()) == nc as int);
                }
                let n = self.node_count;
                assert(n == self.node_infos@.len());
                for src in 0..n
                    invariant
                        self.wf(),
                        self == old(self),
                        n == self.node_infos@.len(),
                        nc < self.contexts@.len(),
                        find_ctx(self.contexts@, Seq::<char>::empty()) == nc as int,
                        graph.wf(),
                        forall|s: int, d: int|
                            0 <= s < src && self.is_user(s) ==> #[trigger] graph.node_w(s, d)
                                == null_w(self.contexts@, s, d),
                        forall|s: int, d: int|
                            !(0 <= s < src && self.is_user(s)) ==> #[trigger] graph.node_w(s, d)
                                == 0,
                {
                    if self.node_infos[src].kind == NodeKind::User {
                        let ghost g0 = graph;
                        let nbrs = self.contexts[nc].graph.neighbors(src);
                        let nn = nbrs.len();
                        for k in 0..nn
                            invariant
                                self.wf(),
                                self == old(self),
                                nc < self.contexts@.len(),
                                find_ctx(self.contexts@, Seq::<char>::empty()) == nc as int,
                                src < self.node_infos@.len(),
                                self.is_user(src as int),
                                graph.wf(),
                                nn == nbrs@.len(),
                                forall|kk: int|
                                    0 <= kk < nbrs@.len() ==> self.contexts@[nc as int].graph.node_w(
                                        src as int,
                                        (#[trigger] nbrs@[kk]).0 as int,
                                    ) == nbrs@[kk].1 && nbrs@[kk].1 != 0,
                                forall|d: int|
                                    self.contexts@[nc as int].graph.node_w(src as int, d) != 0
                                        ==> crate::graph::has_dst(nbrs@, d),
                                forall|kk1: int, kk2: int|
                                    0 <= kk1 < kk2 < nbrs@.len() ==> (#[trigger] nbrs@[kk1]).0 != (
                                    #[trigger] nbrs@[kk2]).0,
                                forall|s: int, d: int|
                                    s != src ==> #[trigger] graph.node_w(s, d) == g0.node_w(s, d),
                                forall|kk: int|
                                    0 <= kk < k ==> #[trigger] graph.node_w(
                                        src as int,
                                        nbrs@[kk].0 as int,
                                    ) == nbrs@[kk].1,
                                forall|d: int|
                                    (forall|kk: int|
                                        0 <= kk < k ==> (#[trigger] nbrs@[kk]).0 != d)
                                        ==> #[trigger] graph.node_w(src as int, d) == 0,
                                forall|s: int, d: int|
                                    !(0 <= s < src && self.is_user(s)) && s != src
                                        ==> #[trigger] graph.node_w(s, d) == 0,
                        {
                            let (d, w) = nbrs[k];
                            proof {
                                assert(self.contexts@[nc as int].graph.node_w(src as int, d as int)
                                    == w);
                                assert(null_w(self.contexts@, src as int, d as int) == w as int);
                                assert(-MAX_EDGE_AMOUNT <= w <= MAX_EDGE_AMOUNT);
                                assert(w_of(self.contexts@, nc as int, src as int, d as int) != 0);
                                assert(d < self.node_infos@.len());
                                assert(src < usize::MAX && d < usize::MAX);
                            }
                            graph.set_edge(src, d, w);
                            proof {
                                assert forall|dd: int|
                                    (forall|kk: int|
                                        0 <= kk < k + 1 ==> (#[trigger] nbrs@[kk]).0 != dd)
                                        implies #[trigger] graph.node_w(src as int, dd) == 0 by {
                                    assert(nbrs@[k as int].0 != dd);
                                }
                            }
                        }
                        proof {
                            assert forall|d: int| #[trigger] graph.node_w(src as int, d) == null_w(
                                self.contexts@,
                                src as int,
                                d,
                            ) by {
                                let nw = self.contexts@[nc as int].graph.node_w(src as int, d);
                                if nw != 0 {
                                    let kk = choose|kk: int|
                                        0 <= kk < nbrs@.len() && (#[trigger] nbrs@[kk]).0 == d;
                                    assert(graph.node_w(src as int, nbrs@[kk].0 as int)
                                        == nbrs@[kk].1);
                                } else {
                                    assert forall|kk: int|
                                        0 <= kk < nbrs@.len() implies (#[trigger] nbrs@[kk]).0
                                        != d by {
                                        if nbrs@[kk].0 == d {
                                            assert(self.contexts@[nc as int].graph.node_w(
                                                src as int,
                                                d,
                                            ) == nbrs@[kk].1);
                                        }
                                    }
                                    assert(graph.node_w(src as int, d) == 0);
                                }
                            }
                        }
                    }
                }
            },
            None => {
                proof {
                    reveal_strlit("");
                    assert(""@ =~= Seq::<char>::empty());
                    if context@.len() != 0 {
                        lemma_find_ctx_range(self.contexts@, Seq::<char>::empty());
                    }
                }
            },
        }
        let ghost ctxs0 = self.contexts@;
        let cs = ContextState { name: context.to_owned(), graph, ranks: Vec::new() };
        self.contexts.push(cs);
        proof {
            let ctxs1 = self.contexts@;
            assert(ctxs1 =~= ctxs0.push(cs));
            lemma_find_ctx_range(ctxs0, context@);
            lemma_find_ctx_push(ctxs0, cs, context@);
            // uniqueness of names
            assert forall|i: int, j: int|
                0 <= i < j < ctxs1.len() implies (#[trigger] ctxs1[i]).name@ != (
            #[trigger] ctxs1[j]).name@ by {
                if j == ctxs1.len() - 1 {
                    assert(ctxs1[i] == ctxs0[i]);
                }
            }
            // the new context's weights
            assert forall|s: int, d: int|
                #[trigger] ctxs1.last().graph.node_w(s, d) == (if context@.len() != 0 {
                    (*old(self)).seed_w(s, d)
                } else {
                    0int
                }) by {
                if context@.len() != 0 && (*old(self)).is_user(s) {
                    if !(0 <= s < old(self).node_count) {
                        assert((*old(self)).kind_of(s) == NodeKind::Unknown);
                    }
                }
            }
            self.lemma_wf_after_push(*old(self), cs);
        }
    }
}


impl AugMultiGraph {
    /// Pushing a fresh, properly seeded context preserves engine
    /// well-formedness.
    proof fn lemma_wf_after_push(self, g0: AugMultiGraph, cs: ContextState)
        requires
            g0.wf(),
            self.node_infos@ == g0.node_infos@,
            self.node_count == g0.node_count,
            self.contexts@ == g0.contexts@.push(cs),
            g0.contexts@.len() < MAX_CONTEXTS,
            find_ctx(g0.contexts@, cs.name@) < 0,
            forall|s: int, d: int|
                #[trigger] cs.graph.node_w(s, d) == if cs.name@.len() != 0 {
                    g0.seed_w(s, d)
                } else {
                    0int
                },
            cs.graph.wf(),
        ensures
            self.wf(),
    {
        let c0 = g0.contexts@;
        let c1 = self.contexts@;
        let a = MAX_EDGE_AMOUNT as int;
        let k0 = named_count(c0);
        lemma_find_ctx_range(c0, cs.name@);
        lemma_named_count_le_len(c0);
        assert(forall|c: int| 0 <= c < c0.len() ==> c1[c] == c0[c]);
        assert(c1.last() == cs);
        // context names stay unique
        assert forall|i: int, j: int|
            0 <= i < j < c1.len() implies (#[trigger] c1[i]).name@ != (#[trigger] c1[j]).name@ by {
            if j == c1.len() - 1 {
                assert(c1[i] == c0[i]);
            }
        }
        // null lookup and null weights are unchanged
        lemma_find_ctx_push(c0, cs, Seq::<char>::empty());
        assert forall|s: int, d: int| #[trigger] null_w(c1, s, d) == null_w(c0, s, d) by {
            if find_ctx(c0, Seq::<char>::empty()) >= 0 {
                lemma_find_ctx_range(c0, Seq::<char>::empty());
                assert(c1[find_ctx(c0, Seq::<char>::empty())] == c0[find_ctx(
                    c0,
                    Seq::<char>::empty(),
                )]);
            } else {
                if cs.name@.len() == 0 {
                    assert(cs.name@ =~= Seq::<char>::empty());
                    assert(find_ctx(c1, Seq::<char>::empty()) == c0.len());
                    assert(cs.graph.node_w(s, d) == 0);
                } else {
                    assert(cs.name@ != Seq::<char>::empty());
                    assert(find_ctx(c1, Seq::<char>::empty()) < 0);
                }
            }
        }
        // unregistered endpoints still carry no weight
        assert forall|c: int, s: int, d: int|
            s >= self.node_infos@.len() || d >= self.node_infos@.len() implies #[trigger] w_of(
            c1,
            c,
            s,
            d,
        ) == 0 by {
            if 0 <= c < c1.len() {
                if c < c0.len() {
                    assert(w_of(c0, c, s, d) == 0);
                } else {
                    if cs.name@.len() != 0 {
                        assert(cs.graph.node_w(s, d) == g0.seed_w(s, d));
                        if g0.is_user(s) {
                            assert(s < g0.node_infos@.len());
                            assert(null_w(c0, s, d) == 0);
                        }
                    }
                }
            }
        }
        // named-context weights stay bounded
        assert forall|c: int, s: int, d: int|
            0 <= c < c1.len() && c1[c].name@.len() != 0 implies -MAX_EDGE_AMOUNT
            <= #[trigger] c1[c].graph.node_w(s, d) <= MAX_EDGE_AMOUNT by {
            if c < c0.len() {
                assert(c1[c] == c0[c]);
            } else {
                assert(c1[c] == cs);
                assert(cs.graph.node_w(s, d) == g0.seed_w(s, d));
            }
        }
        // user-pair null weights stay bounded
        assert forall|s: int, d: int|
            self.is_user(s) implies -MAX_EDGE_AMOUNT <= #[trigger] null_w(c1, s, d)
            <= MAX_EDGE_AMOUNT by {
            assert(g0.is_user(s));
            assert(null_w(c1, s, d) == null_w(c0, s, d));
        }
        // the composition discrepancy stays bounded
        let k1 = named_count(c1);
        assert forall|s: int, d: int|
            -(k1 + 1) * a <= #[trigger] null_w(c1, s, d) - named_sum(c1, s, d) <= (k1 + 1)
                * a by {
            lemma_named_sum_push(c0, cs, s, d);
            assert(null_w(c1, s, d) == null_w(c0, s, d));
            let disc0 = null_w(c0, s, d) - named_sum(c0, s, d);
            assert(-(k0 + 1) * a <= disc0 <= (k0 + 1) * a);
            if cs.name@.len() == 0 {
                assert(k1 == k0);
                assert(named_sum(c1, s, d) == named_sum(c0, s, d));
            } else {
                assert(k1 == k0 + 1);
                assert((k0 + 1) * a <= (k1 + 1) * a) by (nonlinear_arith)
                    requires k1 == k0 + 1 && a >= 0;
                assert(-(k1 + 1) * a <= -(k0 + 1) * a) by (nonlinear_arith)
                    requires k1 == k0 + 1 && a >= 0;
                if g0.is_user(s) {
                    assert(named_sum(c1, s, d) == named_sum(c0, s, d) + null_w(c0, s, d));
                    lemma_named_sum_bound(c0, s, d, a);
                    assert(null_w(c1, s, d) - named_sum(c1, s, d) == -named_sum(c0, s, d));
                    assert(k0 * a <= (k1 + 1) * a) by (nonlinear_arith)
                        requires k1 == k0 + 1 && a >= 0 && k0 >= 0;
                    assert((-k0) * a == -(k0 * a)) by (nonlinear_arith);
                    assert(-(k1 + 1) * a <= -(k0 * a)) by (nonlinear_arith)
                        requires k1 == k0 + 1 && a >= 0 && k0 >= 0;
                } else {
                    assert(cs.graph.node_w(s, d) == 0);
                    assert(named_sum(c1, s, d) == named_sum(c0, s, d));
                }
            }
        }
    }
}


/// When every named context holds the same weight `a` at `(s, d)`, the named
/// sum is `named_count * a`.
pub proof fn lemma_named_sum_const(ctxs: Seq<ContextState>, s: int, d: int, a: int)
    requires
        forall|c: int|
            0 <= c < ctxs.len() && (#[trigger] ctxs[c]).name@.len() != 0 ==> ctxs[c].graph.node_w(
                s,
                d,
            ) == a,
    ensures
        named_sum(ctxs, s, d) == named_count(ctxs) * a,
    decreases ctxs.len(),
{
    if ctxs.len() == 0 {
    } else {
        assert(forall|i: int|
            0 <= i < ctxs.drop_first().len() ==> (#[trigger] ctxs.drop_first()[i]) == ctxs[i + 1]);
        lemma_named_sum_const(ctxs.drop_first(), s, d, a);
        let k = named_count(ctxs.drop_first());
        assert(a + k * a == (k + 1) * a) by (nonlinear_arith);
    }
}

/// The named sum and count at a pair depend only on names and the weights at
/// that pair.
pub proof fn lemma_named_sum_congr(a: Seq<ContextState>, b: Seq<ContextState>, s: int, d: int)
    requires
        a.len() == b.len(),
        forall|c: int| 0 <= c < a.len() ==> (#[trigger] a[c]).name@ == (#[trigger] b[c]).name@,
        forall|c: int|
            0 <= c < a.len() && (#[trigger] a[c]).name@.len() != 0 ==> a[c].graph.node_w(s, d)
                == (#[trigger] b[c]).graph.node_w(s, d),
    ensures
        named_sum(a, s, d) == named_sum(b, s, d),
        named_count(a) == named_count(b),
    decreases a.len(),
{
    if a.len() > 0 {
        assert(forall|i: int|
            0 <= i < a.drop_first().len() ==> (#[trigger] a.drop_first()[i]) == a[i + 1]);
        assert(forall|i: int|
            0 <= i < b.drop_first().len() ==> (#[trigger] b.drop_first()[i]) == b[i + 1]);
        lemma_named_sum_congr(a.drop_first(), b.drop_first(), s, d);
    }
}

/// The named-context count depends only on the names.
pub proof fn lemma_named_count_congr(a: Seq<ContextState>, b: Seq<ContextState>)
    requires
        a.len() == b.len(),
        forall|c: int| 0 <= c < a.len() ==> (#[trigger] a[c]).name@ == (#[trigger] b[c]).name@,
    ensures
        named_count(a) == named_count(b),
    decreases a.len(),
{
    if a.len() > 0 {
        assert(forall|i: int|
            0 <= i < a.drop_first().len() ==> (#[trigger] a.drop_first()[i]) == a[i + 1]);
        assert(forall|i: int|
            0 <= i < b.drop_first().len() ==> (#[trigger] b.drop_first()[i]) == b[i + 1]);
        lemma_named_count_congr(a.drop_first(), b.drop_first());
    }
}

impl AugMultiGraph {
    /// The null weight is bounded by the composition discrepancy plus the
    /// named sum.
    pub proof fn lemma_null_weight_bound(self, s: int, d: int)
        requires
            self.wf(),
        ensures
            -(2 * MAX_CONTEXTS + 1) * MAX_EDGE_AMOUNT <= null_w(self.contexts@, s, d) <= (2
                * MAX_CONTEXTS + 1) * MAX_EDGE_AMOUNT,
    {
        let ctxs = self.contexts@;
        let a = MAX_EDGE_AMOUNT as int;
        let k = named_count(ctxs);
        lemma_named_count_le_len(ctxs);
        lemma_named_sum_bound(ctxs, s, d, a);
        assert(k <= MAX_CONTEXTS as int);
        let m = MAX_CONTEXTS as int;
        assert((-k) * a == -(k * a)) by (nonlinear_arith);
        assert((-(k + 1)) * a == -((k + 1) * a)) by (nonlinear_arith);
        assert(k * a + (k + 1) * a == (2 * k + 1) * a) by (nonlinear_arith);
        assert((2 * k + 1) * a <= (2 * m + 1) * a) by (nonlinear_arith)
            requires 0 <= k <= m && a >= 0;
        assert(-((2 * m + 1) * a) == (-(2 * m + 1)) * a) by (nonlinear_arith);
    }
}


impl AugMultiGraph {
    /// Whether the contexts needed for a write (null and the target) can all
    /// exist without passing the context cap.
    pub open spec fn can_write_ctx(self, context: Seq<char>) -> bool {
        let need_null: int = if find_ctx(self.contexts@, Seq::<char>::empty()) >= 0 {
            0
        } else {
            1
        };
        let need_ctx: int = if context.len() == 0 || find_ctx(self.contexts@, context) >= 0 {
            0
        } else {
            1
        };
        self.contexts@.len() + need_null + need_ctx <= MAX_CONTEXTS
    }

    /// The canonical write.  A user-sourced edge is broadcast into every
    /// context; a write to the null context goes there alone; a write to a
    /// named context sets that context's weight and applies the delta to the
    /// null context, preserving the composition discrepancy of every pair
    /// whose source is not a user node.  The rank cache of the source node is
    /// dropped in every context.
    #[verifier::rlimit(100)]
    pub(crate) fn set_edge(&mut self, context: &str, src: NodeId, dst: NodeId, amount: Weight)
        requires
            (*old(self)).wf(),
            -MAX_EDGE_AMOUNT <= amount <= MAX_EDGE_AMOUNT,
            src < old(self).node_count,
            dst < old(self).node_count,
        ensures
            final(self).wf(),
            final(self).node_infos@ == old(self).node_infos@,
            final(self).node_count == old(self).node_count,
            final(self).zero_node@ == old(self).zero_node@,
            !(*old(self)).can_write_ctx(context@) ==> *final(self) == *old(self),
            (*old(self)).can_write_ctx(context@) ==> {
                &&& old(self).contexts@.len() <= final(self).contexts@.len() <= old(
                    self,
                ).contexts@.len() + 2
                &&& forall|c: int|
                    0 <= c < old(self).contexts@.len() ==> (#[trigger] final(self).contexts@[c]).name@
                        == old(self).contexts@[c].name@
                &&& find_ctx(final(self).contexts@, Seq::<char>::empty()) >= 0
                &&& find_ctx(final(self).contexts@, context@) >= 0
                &&& forall|s: int, d: int, c: int|
                    !(s == src && d == dst) && 0 <= c < final(self).contexts@.len()
                        ==> #[trigger] w_of(final(self).contexts@, c, s, d) == (if c < old(
                        self,
                    ).contexts@.len() {
                        w_of(old(self).contexts@, c, s, d)
                    } else if final(self).contexts@[c].name@.len() == 0 {
                        0int
                    } else {
                        (*old(self)).seed_w(s, d)
                    })
                &&& (*old(self)).is_user(src as int) ==> forall|c: int|
                    0 <= c < final(self).contexts@.len() ==> #[trigger] w_of(
                        final(self).contexts@,
                        c,
                        src as int,
                        dst as int,
                    ) == amount
                &&& !(*old(self)).is_user(src as int) ==> w_of(
                    final(self).contexts@,
                    find_ctx(final(self).contexts@, context@),
                    src as int,
                    dst as int,
                ) == amount
                &&& !(*old(self)).is_user(src as int) && context@.len() != 0 ==> w_of(
                    final(self).contexts@,
                    find_ctx(final(self).contexts@, Seq::<char>::empty()),
                    src as int,
                    dst as int,
                ) == null_w(old(self).contexts@, src as int, dst as int) + amount - (
                if find_ctx(old(self).contexts@, context@) >= 0 {
                    w_of(
                        old(self).contexts@,
                        find_ctx(old(self).contexts@, context@),
                        src as int,
                        dst as int,
                    )
                } else {
                    0int
                })
                &&& !(*old(self)).is_user(src as int) ==> forall|c: int|
                    0 <= c < final(self).contexts@.len() && c != find_ctx(
                        final(self).contexts@,
                        Seq::<char>::empty(),
                    ) && c != find_ctx(final(self).contexts@, context@) ==> #[trigger] w_of(
                        final(self).contexts@,
                        c,
                        src as int,
                        dst as int,
                    ) == (if c < old(self).contexts@.len() {
                        w_of(old(self).contexts@, c, src as int, dst as int)
                    } else {
                        0int
                    })
                &&& !(*old(self)).is_user(src as int) && context@.len() != 0 ==> forall|s: int, d: int|
                    !(*old(self)).is_user(s) ==> #[trigger] null_w(final(self).contexts@, s, d)
                        - named_sum(final(self).contexts@, s, d) == null_w(old(self).contexts@, s, d)
                        - named_sum(old(self).contexts@, s, d)
                &&& forall|c: int, e: int|
                    #[trigger] final(self).ranks_of(c, e) == if e == src as int {
                        None::<Seq<(NodeId, Weight)>>
                    } else {
                        (*old(self)).ranks_of(c, e)
                    }
            },
    {
        proof {
            reveal_strlit("");
            assert(""@ =~= Seq::<char>::empty());
        }
        // capacity check before any mutation
        let have_null = match self.ctx_index("") {
            Some(_) => true,
            None => false,
        };
        let have_ctx = if context.is_empty() {
            true
        } else {
            match self.ctx_index(context) {
                Some(_) => true,
                None => false,
            }
        };
        let needed: usize = (if have_null {
            0
        } else {
            1
        }) + (if have_ctx {
            0
        } else {
            1
        });
        if self.contexts.len() > MAX_CONTEXTS - needed {
            // cannot create the needed contexts: leave the engine unchanged
            assert(!(*old(self)).can_write_ctx(context@));
            return ;
        }
        assert((*old(self)).can_write_ctx(context@));
        self.create_context("");
        let ghost g1 = *self;
        self.create_context(context);
        let ghost base = *self;
        proof {
            let co = old(self).contexts@;
            let cg1 = g1.contexts@;
            let cb = base.contexts@;
            assert(find_ctx(cg1, Seq::<char>::empty()) >= 0) by {
                lemma_find_ctx_range(co, Seq::<char>::empty());
                if find_ctx(co, Seq::<char>::empty()) >= 0 {
                    assert(cg1 == co);
                } else {
                    assert(!have_null);
                    assert(co.len() < MAX_CONTEXTS);
                    assert(cg1.len() == co.len() + 1);
                    assert(cg1 =~= co.push(cg1.last()));
                    assert(cg1.last().name@ =~= Seq::<char>::empty());
                    lemma_find_ctx_push(co, cg1.last(), Seq::<char>::empty());
                }
            }
            assert(find_ctx(cb, Seq::<char>::empty()) >= 0) by {
                lemma_find_ctx_range(cg1, context@);
                if find_ctx(cg1, context@) >= 0 || cg1.len() >= MAX_CONTEXTS {
                    assert(cb == cg1);
                } else {
                    assert(cb.len() == cg1.len() + 1);
                    assert(cb =~= cg1.push(cb.last()));
                    lemma_find_ctx_push(cg1, cb.last(), Seq::<char>::empty());
                    assert(cb[find_ctx(cg1, Seq::<char>::empty())] == cg1[find_ctx(
                        cg1,
                        Seq::<char>::empty(),
                    )]) by {
                        lemma_find_ctx_range(cg1, Seq::<char>::empty());
                    }
                }
            }
            assert(find_ctx(cb, context@) >= 0) by {
                lemma_find_ctx_range(cg1, context@);
                if find_ctx(cg1, context@) >= 0 {
                    if cb == cg1 {
                    } else {
                        assert(cb =~= cg1.push(cb.last()));
                        lemma_find_ctx_push(cg1, cb.last(), context@);
                    }
                } else {
                    if context@.len() == 0 {
                        assert(context@ =~= Seq::<char>::empty());
                        assert(false);
                    }
                    assert(!have_ctx);
                    assert(cg1.len() < MAX_CONTEXTS) by {
                        if have_null {
                            assert(cg1 == co);
                        }
                    }
                    assert(cb.len() == cg1.len() + 1);
                    assert(cb =~= cg1.push(cb.last()));
                    assert(cb.last().name@ == context@);
                    lemma_find_ctx_push(cg1, cb.last(), context@);
                }
            }
        }
        let is_user_src = self.node_infos[src].kind == NodeKind::User;
        if is_user_src {
            let n = self.contexts.len();
            for c in 0..n
                invariant
                    n == self.contexts@.len(),
                    self.contexts@.len() == base.contexts@.len(),
                    self.node_infos@ == base.node_infos@,
                    self.node_count == base.node_count,
                    self.zero_node@ == base.zero_node@,
                    base.wf(),
                    src < self.node_count,
                    dst < self.node_count,
                    -MAX_EDGE_AMOUNT <= amount <= MAX_EDGE_AMOUNT,
                    forall|cc: int|
                        0 <= cc < n ==> (#[trigger] self.contexts@[cc]).name@
                            == base.contexts@[cc].name@ && self.contexts@[cc].ranks@
                            == base.contexts@[cc].ranks@ && self.contexts@[cc].graph.wf(),
                    forall|cc: int|
                        c <= cc < n ==> #[trigger] self.contexts@[cc] == base.contexts@[cc],
                    forall|cc: int, s: int, d: int|
                        0 <= cc < c ==> #[trigger] self.contexts@[cc].graph.node_w(s, d) == (
                        if s == src && d == dst {
                            amount as int
                        } else {
                            base.contexts@[cc].graph.node_w(s, d)
                        }),
            {
                proof {
                    base.lemma_all_weights_stored(c as int, src as int, dst as int);
                }
                self.contexts[c].graph.set_edge(src, dst, amount);
            }
            proof {
                self.lemma_wf_after_broadcast(base, src as int, dst as int, amount as int);
            }
        } else if context.is_empty() {
            let nc = match self.ctx_index("") {
                Some(nc) => nc,
                None => {
                    proof {
                        assert(false);
                    }
                    0
                },
            };
            let ghost pre = *self;
            proof {
                pre.lemma_all_weights_stored(nc as int, src as int, dst as int);
            }
            self.contexts[nc].graph.set_edge(src, dst, amount);
            proof {
                self.lemma_wf_after_null_write(pre, nc as int, src as int, dst as int, amount as int);
            }
        } else {
            let nc = match self.ctx_index("") {
                Some(nc) => nc,
                None => {
                    proof {
                        assert(false);
                    }
                    0
                },
            };
            let cc = match self.ctx_index(context) {
                Some(cc) => cc,
                None => {
                    proof {
                        assert(false);
                    }
                    0
                },
            };
            assert(nc != cc);
            let null_weight = self.contexts[nc].graph.edge_weight(src, dst);
            let old_weight = self.contexts[cc].graph.edge_weight(src, dst);
            proof {
                let pre = *self;
                pre.lemma_null_weight_bound(src as int, dst as int);
                assert(find_ctx(pre.contexts@, Seq::<char>::empty()) == nc as int);
                assert(null_w(pre.contexts@, src as int, dst as int) == null_weight as int);
            }
            let delta = null_weight + amount - old_weight;
            let ghost pre = *self;
            self.contexts[cc].graph.set_edge(src, dst, amount);
            self.contexts[nc].graph.set_edge(src, dst, delta);
            proof {
                self.lemma_wf_after_delta(
                    pre,
                    nc as int,
                    cc as int,
                    src as int,
                    dst as int,
                    amount as int,
                    delta as int,
                );
            }
        }
        // drop the source node's rank caches
        let ghost mid = *self;
        let n = self.contexts.len();
        for c in 0..n
            invariant
                n == self.contexts@.len(),
                self.contexts@.len() == mid.contexts@.len(),
                self.node_infos@ == mid.node_infos@,
                self.node_count == mid.node_count,
                self.zero_node@ == mid.zero_node@,
                self.dummy_info == mid.dummy_info,
                forall|cc: int|
                    0 <= cc < n ==> (#[trigger] self.contexts@[cc]).name@
                        == mid.contexts@[cc].name@ && self.contexts@[cc].graph
                        == mid.contexts@[cc].graph,
                forall|cc: int|
                    0 <= cc < c ==> (#[trigger] self.contexts@[cc]).ranks@.len()
                        == mid.contexts@[cc].ranks@.len(),
                forall|cc: int, e: int|
                    0 <= cc < c && 0 <= e < self.contexts@[cc].ranks@.len() && e != src
                        ==> (#[trigger] self.contexts@[cc].ranks@[e])
                        == mid.contexts@[cc].ranks@[e],
                forall|cc: int|
                    0 <= cc < c && src < self.contexts@[cc].ranks@.len()
                        ==> (#[trigger] self.contexts@[cc].ranks@[src as int]) is None,
                forall|cc: int|
                    c <= cc < n ==> (#[trigger] self.contexts@[cc]).ranks@
                        == mid.contexts@[cc].ranks@,
        {
            if src < self.contexts[c].ranks.len() {
                self.contexts[c].ranks[src] = None;
            }
        }
        proof {
            self.lemma_wf_ranks_congr(mid);
            let o = *old(self);
            let co = o.contexts@;
            let cg1 = g1.contexts@;
            let cb = base.contexts@;
            let cf = self.contexts@;
            // the final context list has the same names as after creation
            assert(cf.len() == cb.len());
            assert(forall|c: int| 0 <= c < cf.len() ==> (#[trigger] cf[c]).name@ == cb[c].name@);
            assert forall|name: Seq<char>| true implies find_ctx(cf, name) == find_ctx(
                cb,
                name,
            ) by {
                lemma_find_ctx_names(cf, cb, name);
            }
            // creation preserved the old contexts and appended seeded ones
            assert(co.len() <= cb.len() <= co.len() + 2);
            assert(forall|c: int| 0 <= c < co.len() ==> (#[trigger] cb[c]) == co[c]);
            // null lookups agree between the old and created states
            assert forall|x: int, y: int| true implies #[trigger] null_w(cg1, x, y) == null_w(
                co,
                x,
                y,
            ) by {
                lemma_find_ctx_range(co, Seq::<char>::empty());
                if find_ctx(co, Seq::<char>::empty()) >= 0 {
                    assert(cg1 == co);
                } else {
                    if cg1.len() == co.len() + 1 {
                        assert(cg1.last().name@ =~= Seq::<char>::empty());
                        lemma_find_ctx_push(co, cg1.last(), Seq::<char>::empty());
                        assert(cg1 =~= co.push(cg1.last()));
                        assert(find_ctx(cg1, Seq::<char>::empty()) == co.len());
                        assert(cg1.last().graph.node_w(x, y) == 0);
                    }
                }
            }
            assert forall|x: int, y: int| true implies #[trigger] null_w(cb, x, y) == null_w(
                co,
                x,
                y,
            ) by {
                lemma_find_ctx_range(cg1, Seq::<char>::empty());
                if cb == cg1 {
                } else {
                    assert(cb.len() == cg1.len() + 1);
                    assert(cb =~= cg1.push(cb.last()));
                    lemma_find_ctx_push(cg1, cb.last(), Seq::<char>::empty());
                    if find_ctx(cg1, Seq::<char>::empty()) >= 0 {
                        assert(cb[find_ctx(cg1, Seq::<char>::empty())] == cg1[find_ctx(
                            cg1,
                            Seq::<char>::empty(),
                        )]);
                    } else {
                        if cb.last().name@.len() == 0 {
                            assert(cb.last().graph.node_w(x, y) == 0);
                        }
                    }
                }
            }
            // seeds in the second creation agree with seeds of the old state
            assert(forall|x: int, y: int| g1.seed_w(x, y) == o.seed_w(x, y));
            // appended contexts carry seed weights (or zero for the null)
            assert forall|c: int, x: int, y: int|
                co.len() <= c < cb.len() implies #[trigger] w_of(cb, c, x, y) == (
                if cb[c].name@.len() == 0 {
                    0int
                } else {
                    o.seed_w(x, y)
                }) by {
                if c < cg1.len() {
                    // appended by the first creation: the null context
                    assert(cg1[c] == cb[c]);
                    assert(cg1[c].name@.len() == 0);
                    assert(cg1[c].graph.node_w(x, y) == 0);
                } else {
                    assert(cb[c] == cb.last());
                }
            }
            // transfer of branch facts through the rank-cache loop
            assert(forall|c: int|
                0 <= c < cf.len() ==> (#[trigger] cf[c]).graph == mid.contexts@[c].graph);
            let cm = mid.contexts@;
            // weights at pairs other than the written one
            assert forall|x: int, y: int, c: int|
                !(x == src && y == dst) && 0 <= c < cf.len() implies #[trigger] w_of(
                cf,
                c,
                x,
                y,
            ) == (if c < co.len() {
                w_of(co, c, x, y)
            } else if cf[c].name@.len() == 0 {
                0int
            } else {
                o.seed_w(x, y)
            }) by {
                assert(cf[c].graph == cm[c].graph);
                assert(cm[c].graph.node_w(x, y) == cb[c].graph.node_w(x, y));
                assert(w_of(cf, c, x, y) == w_of(cb, c, x, y));
            }
            // the written pair
            if o.is_user(src as int) {
                assert forall|c: int|
                    0 <= c < cf.len() implies #[trigger] w_of(cf, c, src as int, dst as int)
                    == amount by {
                    assert(cf[c].graph == cm[c].graph);
                    assert(cm[c].graph.node_w(src as int, dst as int) == amount);
                }
            } else {
                let nullc = find_ctx(cf, Seq::<char>::empty());
                let ctxc = find_ctx(cf, context@);
                lemma_find_ctx_range(cb, Seq::<char>::empty());
                lemma_find_ctx_range(cb, context@);
                assert(w_of(cf, ctxc, src as int, dst as int) == amount) by {
                    if context@.len() == 0 {
                        assert(context@ =~= Seq::<char>::empty());
                    }
                    assert(cm[ctxc].graph.node_w(src as int, dst as int) == amount);
                    assert(cf[ctxc].graph == cm[ctxc].graph);
                }
                if context@.len() != 0 {
                    assert(w_of(cf, nullc, src as int, dst as int) == null_w(
                        co,
                        src as int,
                        dst as int,
                    ) + amount - (if find_ctx(co, context@) >= 0 {
                        w_of(co, find_ctx(co, context@), src as int, dst as int)
                    } else {
                        0int
                    })) by {
                        assert(cf[nullc].graph == cm[nullc].graph);
                        assert(null_w(cb, src as int, dst as int) == null_w(
                            co,
                            src as int,
                            dst as int,
                        ));
                        if find_ctx(co, context@) >= 0 {
                            assert(cb[find_ctx(co, context@)] == co[find_ctx(co, context@)]);
                            assert(find_ctx(cb, context@) == find_ctx(co, context@)) by {
                                lemma_find_ctx_range(co, context@);
                                lemma_find_ctx_unique(cb, context@, find_ctx(co, context@));
                            }
                        } else {
                            assert(find_ctx(cg1, context@) < 0) by {
                                if cg1.len() == co.len() + 1 {
                                    assert(cg1 =~= co.push(cg1.last()));
                                    lemma_find_ctx_push(co, cg1.last(), context@);
                                    assert(cg1.last().name@.len() == 0);
                                } else {
                                    assert(cg1 == co);
                                }
                            }
                            assert(cb.len() == cg1.len() + 1);
                            assert(cb =~= cg1.push(cb.last()));
                            lemma_find_ctx_push(cg1, cb.last(), context@);
                            assert(find_ctx(cb, context@) == cg1.len());
                            assert(w_of(cb, find_ctx(cb, context@), src as int, dst as int)
                                == o.seed_w(src as int, dst as int));
                            assert(o.seed_w(src as int, dst as int) == 0);
                        }
                    }
                }
                assert forall|c: int|
                    0 <= c < cf.len() && c != nullc && c != ctxc implies #[trigger] w_of(
                    cf,
                    c,
                    src as int,
                    dst as int,
                ) == (if c < co.len() {
                    w_of(co, c, src as int, dst as int)
                } else {
                    0int
                }) by {
                    assert(cf[c].graph == cm[c].graph);
                    assert(cm[c].graph.node_w(src as int, dst as int) == cb[c].graph.node_w(
                        src as int,
                        dst as int,
                    ));
                    if c >= co.len() {
                        // every appended context is the null or the target
                        assert(w_of(cb, c, src as int, dst as int) == (
                        if cb[c].name@.len() == 0 {
                            0int
                        } else {
                            o.seed_w(src as int, dst as int)
                        }));
                        assert(o.seed_w(src as int, dst as int) == 0);
                    }
                }
            }
            // composition discrepancy preserved for non-user pairs
            if !o.is_user(src as int) && context@.len() != 0 {
                assert forall|x: int, y: int|
                    !o.is_user(x) implies #[trigger] null_w(cf, x, y) - named_sum(cf, x, y)
                    == null_w(co, x, y) - named_sum(co, x, y) by {
                    // final vs after-write: only rank caches differ
                    lemma_named_sum_congr(cf, cm, x, y);
                    assert(null_w(cf, x, y) == null_w(cm, x, y)) by {
                        lemma_find_ctx_names(cf, cm, Seq::<char>::empty());
                        lemma_find_ctx_range(cm, Seq::<char>::empty());
                    }
                    // after-write vs created: the delta rule preserves it
                    assert(null_w(cm, x, y) - named_sum(cm, x, y) == null_w(cb, x, y)
                        - named_sum(cb, x, y));
                    // created vs old: appended contexts add no weight at
                    // non-user pairs
                    assert(null_w(cb, x, y) == null_w(co, x, y));
                    assert(named_sum(cb, x, y) == named_sum(co, x, y)) by {
                        if cg1.len() == co.len() + 1 {
                            assert(cg1 =~= co.push(cg1.last()));
                            lemma_named_sum_push(co, cg1.last(), x, y);
                        } else {
                            assert(cg1 == co);
                        }
                        if cb.len() == cg1.len() + 1 {
                            assert(cb =~= cg1.push(cb.last()));
                            lemma_named_sum_push(cg1, cb.last(), x, y);
                            if cb.last().name@.len() != 0 {
                                assert(cb.last().graph.node_w(x, y) == o.seed_w(x, y));
                                assert(o.seed_w(x, y) == 0);
                            }
                        } else {
                            assert(cb == cg1);
                        }
                    }
                }
            }
            // rank caches: the source's cache is dropped, others are kept
            assert forall|c: int, e: int|
                #[trigger] self.ranks_of(c, e) == (if e == src as int {
                    None::<Seq<(NodeId, Weight)>>
                } else {
                    o.ranks_of(c, e)
                }) by {
                if 0 <= c < cf.len() {
                    if e == src as int {
                        if 0 <= e < cf[c].ranks@.len() {
                            assert(cf[c].ranks@[src as int] is None);
                        }
                    } else {
                        assert(cf[c].ranks@.len() == cm[c].ranks@.len());
                        assert(cm[c].ranks@ == cb[c].ranks@);
                        if 0 <= e < cf[c].ranks@.len() {
                            assert(cf[c].ranks@[e] == cm[c].ranks@[e]);
                        }
                        if c < co.len() {
                            assert(cb[c] == co[c]);
                        } else {
                            assert(cb[c].ranks@.len() == 0);
                        }
                    }
                }
            }
        }
    }
}


impl AugMultiGraph {
    /// Broadcasting one amount into every context at one pair preserves
    /// well-formedness.
    proof fn lemma_wf_after_broadcast(self, base: AugMultiGraph, s: int, d: int, a: int)
        requires
            base.wf(),
            self.node_infos@ == base.node_infos@,
            self.node_count == base.node_count,
            self.contexts@.len() == base.contexts@.len(),
            find_ctx(base.contexts@, Seq::<char>::empty()) >= 0,
            base.is_user(s),
            0 <= s < base.node_count,
            0 <= d < base.node_count,
            -MAX_EDGE_AMOUNT <= a <= MAX_EDGE_AMOUNT,
            forall|c: int|
                0 <= c < self.contexts@.len() ==> (#[trigger] self.contexts@[c]).name@
                    == base.contexts@[c].name@ && self.contexts@[c].graph.wf(),
            forall|c: int, x: int, y: int|
                0 <= c < self.contexts@.len() ==> #[trigger] self.contexts@[c].graph.node_w(x, y)
                    == (if x == s && y == d {
                    a
                } else {
                    base.contexts@[c].graph.node_w(x, y)
                }),
        ensures
            self.wf(),
    {
        let c0 = base.contexts@;
        let c1 = self.contexts@;
        let am = MAX_EDGE_AMOUNT as int;
        assert forall|name: Seq<char>| true implies find_ctx(c1, name) == find_ctx(c0, name) by {
            lemma_find_ctx_names(c1, c0, name);
        }
        assert forall|x: int, y: int|
            !(x == s && y == d) implies #[trigger] null_w(c1, x, y) == null_w(c0, x, y)
            && named_sum(c1, x, y) == named_sum(c0, x, y) && named_count(c1) == named_count(
            c0,
        ) by {
            lemma_named_sum_congr(c1, c0, x, y);
            lemma_find_ctx_range(c0, Seq::<char>::empty());
        }
        lemma_named_count_congr(c1, c0);
        lemma_find_ctx_range(c0, Seq::<char>::empty());
        let k = named_count(c0);
        lemma_named_count_le_len(c0);
        // the written pair
        assert(null_w(c1, s, d) == a);
        lemma_named_sum_const(c1, s, d, a);
        assert(named_sum(c1, s, d) == k * a);
        let disc = a - k * a;
        assert(-(k + 1) * am <= disc <= (k + 1) * am) by (nonlinear_arith)
            requires -am <= a <= am && k >= 0 && disc == a - k * a;
        // W2 for all pairs
        assert forall|x: int, y: int|
            -(named_count(c1) + 1) * MAX_EDGE_AMOUNT <= #[trigger] null_w(c1, x, y) - named_sum(
                c1,
                x,
                y,
            ) <= (named_count(c1) + 1) * MAX_EDGE_AMOUNT by {
            if !(x == s && y == d) {
            }
        }
        // W4
        assert forall|x: int, y: int|
            self.is_user(x) implies -MAX_EDGE_AMOUNT <= #[trigger] null_w(c1, x, y)
            <= MAX_EDGE_AMOUNT by {
            if !(x == s && y == d) {
                assert(base.is_user(x));
            }
        }
        // W0
        assert forall|c: int, x: int, y: int|
            x >= self.node_infos@.len() || y >= self.node_infos@.len() implies #[trigger] w_of(
            c1,
            c,
            x,
            y,
        ) == 0 by {
            if 0 <= c < c1.len() {
                assert(!(x == s && y == d));
                assert(w_of(c0, c, x, y) == 0);
            }
        }
    }

    /// Writing one amount into the null context at one pair preserves
    /// well-formedness.
    proof fn lemma_wf_after_null_write(self, pre: AugMultiGraph, nc: int, s: int, d: int, a: int)
        requires
            pre.wf(),
            self.node_infos@ == pre.node_infos@,
            self.node_count == pre.node_count,
            self.contexts@.len() == pre.contexts@.len(),
            0 <= nc < pre.contexts@.len(),
            pre.contexts@[nc].name@.len() == 0,
            0 <= s < pre.node_count,
            0 <= d < pre.node_count,
            -MAX_EDGE_AMOUNT <= a <= MAX_EDGE_AMOUNT,
            forall|c: int|
                0 <= c < self.contexts@.len() ==> (#[trigger] self.contexts@[c]).name@
                    == pre.contexts@[c].name@ && self.contexts@[c].graph.wf(),
            forall|c: int| 0 <= c < self.contexts@.len() && c != nc ==> (#[trigger] self.contexts@[c]).graph
                == pre.contexts@[c].graph,
            forall|x: int, y: int|
                #[trigger] self.contexts@[nc].graph.node_w(x, y) == (if x == s && y == d {
                    a
                } else {
                    pre.contexts@[nc].graph.node_w(x, y)
                }),
        ensures
            self.wf(),
    {
        let c0 = pre.contexts@;
        let c1 = self.contexts@;
        let am = MAX_EDGE_AMOUNT as int;
        assert forall|name: Seq<char>| true implies find_ctx(c1, name) == find_ctx(c0, name) by {
            lemma_find_ctx_names(c1, c0, name);
        }
        assert(c0[nc].name@ =~= Seq::<char>::empty());
        lemma_find_ctx_unique(c0, Seq::<char>::empty(), nc);
        assert forall|x: int, y: int|
            #[trigger] named_sum(c1, x, y) == named_sum(c0, x, y) && named_count(c1)
                == named_count(c0) by {
            lemma_named_sum_congr(c1, c0, x, y);
        }
        let k = named_count(c0);
        lemma_named_count_le_len(c0);
        assert forall|x: int, y: int|
            -(named_count(c1) + 1) * MAX_EDGE_AMOUNT <= #[trigger] null_w(c1, x, y) - named_sum(
                c1,
                x,
                y,
            ) <= (named_count(c1) + 1) * MAX_EDGE_AMOUNT by {
            if x == s && y == d {
                lemma_named_sum_bound(c0, x, y, am);
                assert(null_w(c1, x, y) == a);
                assert((-k) * am == -(k * am)) by (nonlinear_arith);
                assert(k * am + am == (k + 1) * am) by (nonlinear_arith);
                assert((-(k + 1)) * am == -((k + 1) * am)) by (nonlinear_arith);
            } else {
                assert(null_w(c1, x, y) == null_w(c0, x, y));
            }
        }
        assert forall|x: int, y: int|
            self.is_user(x) implies -MAX_EDGE_AMOUNT <= #[trigger] null_w(c1, x, y)
            <= MAX_EDGE_AMOUNT by {
            if !(x == s && y == d) {
                assert(pre.is_user(x));
                assert(null_w(c1, x, y) == null_w(c0, x, y));
            }
        }
        assert forall|c: int, x: int, y: int|
            x >= self.node_infos@.len() || y >= self.node_infos@.len() implies #[trigger] w_of(
            c1,
            c,
            x,
            y,
        ) == 0 by {
            if 0 <= c < c1.len() {
                assert(!(x == s && y == d));
                assert(w_of(c0, c, x, y) == 0);
            }
        }
    }

    /// The delta rule: writing `a` into a named context and
    /// `null + a - prev` into the null context preserves well-formedness.
    proof fn lemma_wf_after_delta(
        self,
        pre: AugMultiGraph,
        nc: int,
        cc: int,
        s: int,
        d: int,
        a: int,
        delta: int,
    )
        requires
            pre.wf(),
            self.node_infos@ == pre.node_infos@,
            self.node_count == pre.node_count,
            self.contexts@.len() == pre.contexts@.len(),
            0 <= nc < pre.contexts@.len(),
            0 <= cc < pre.contexts@.len(),
            nc != cc,
            pre.contexts@[nc].name@.len() == 0,
            pre.contexts@[cc].name@.len() != 0,
            !pre.is_user(s),
            0 <= s < pre.node_count,
            0 <= d < pre.node_count,
            -MAX_EDGE_AMOUNT <= a <= MAX_EDGE_AMOUNT,
            delta == null_w(pre.contexts@, s, d) + a - pre.contexts@[cc].graph.node_w(s, d),
            forall|c: int|
                0 <= c < self.contexts@.len() ==> (#[trigger] self.contexts@[c]).name@
                    == pre.contexts@[c].name@ && self.contexts@[c].graph.wf(),
            forall|c: int|
                0 <= c < self.contexts@.len() && c != nc && c != cc ==> (
                #[trigger] self.contexts@[c]).graph == pre.contexts@[c].graph,
            forall|x: int, y: int|
                #[trigger] self.contexts@[nc].graph.node_w(x, y) == (if x == s && y == d {
                    delta
                } else {
                    pre.contexts@[nc].graph.node_w(x, y)
                }),
            forall|x: int, y: int|
                #[trigger] self.contexts@[cc].graph.node_w(x, y) == (if x == s && y == d {
                    a
                } else {
                    pre.contexts@[cc].graph.node_w(x, y)
                }),
        ensures
            self.wf(),
            forall|x: int, y: int|
                #[trigger] null_w(self.contexts@, x, y) - named_sum(self.contexts@, x, y)
                    == null_w(pre.contexts@, x, y) - named_sum(pre.contexts@, x, y),
    {
        let c0 = pre.contexts@;
        let c1 = self.contexts@;
        let am = MAX_EDGE_AMOUNT as int;
        assert forall|name: Seq<char>| true implies find_ctx(c1, name) == find_ctx(c0, name) by {
            lemma_find_ctx_names(c1, c0, name);
        }
        assert(c0[nc].name@ =~= Seq::<char>::empty());
        lemma_find_ctx_unique(c0, Seq::<char>::empty(), nc);
        let k = named_count(c0);
        lemma_named_count_le_len(c0);
        // named sums: only the cc update matters, and only at (s, d)
        assert forall|x: int, y: int|
            #[trigger] named_sum(c1, x, y) == named_sum(c0, x, y) + (if x == s && y == d {
                a - c0[cc].graph.node_w(s, d)
            } else {
                0int
            }) && named_count(c1) == named_count(c0) by {
            let cmid = c0.update(cc, c1[cc]);
            lemma_named_sum_update(c0, cc, c1[cc], x, y);
            assert(c1[cc].graph.node_w(x, y) == if x == s && y == d {
                a
            } else {
                c0[cc].graph.node_w(x, y)
            });
            lemma_named_sum_congr(c1, cmid, x, y);
        }
        // discrepancy preserved everywhere
        assert forall|x: int, y: int|
            #[trigger] null_w(c1, x, y) - named_sum(c1, x, y) == null_w(c0, x, y) - named_sum(
                c0,
                x,
                y,
            ) by {
            if x == s && y == d {
                assert(null_w(c1, x, y) == delta);
            } else {
                assert(null_w(c1, x, y) == null_w(c0, x, y));
            }
        }
        // W4
        assert forall|x: int, y: int|
            self.is_user(x) implies -MAX_EDGE_AMOUNT <= #[trigger] null_w(c1, x, y)
            <= MAX_EDGE_AMOUNT by {
            assert(pre.is_user(x));
            // the delta rule is only used when the source is not a user
            // node, so the written pair is not a user pair
            assert(!(x == s && y == d));
            assert(null_w(c1, x, y) == null_w(c0, x, y));
        }
        // W2 bound from preservation
        assert forall|x: int, y: int|
            -(named_count(c1) + 1) * MAX_EDGE_AMOUNT <= #[trigger] null_w(c1, x, y) - named_sum(
                c1,
                x,
                y,
            ) <= (named_count(c1) + 1) * MAX_EDGE_AMOUNT by {}
        // W0
        assert forall|c: int, x: int, y: int|
            x >= self.node_infos@.len() || y >= self.node_infos@.len() implies #[trigger] w_of(
            c1,
            c,
            x,
            y,
        ) == 0 by {
            if 0 <= c < c1.len() {
                assert(!(x == s && y == d));
                assert(w_of(c0, c, x, y) == 0);
            }
        }
    }

    /// Changing only rank caches leaves well-formedness intact.
    pub(crate) proof fn lemma_wf_ranks_congr(self, mid: AugMultiGraph)
        requires
            mid.wf(),
            self.node_infos@ == mid.node_infos@,
            self.node_count == mid.node_count,
            self.contexts@.len() == mid.contexts@.len(),
            forall|c: int|
                0 <= c < self.contexts@.len() ==> (#[trigger] self.contexts@[c]).name@
                    == mid.contexts@[c].name@ && self.contexts@[c].graph
                    == mid.contexts@[c].graph,
        ensures
            self.wf(),
    {
        let c0 = mid.contexts@;
        let c1 = self.contexts@;
        assert forall|name: Seq<char>| true implies find_ctx(c1, name) == find_ctx(c0, name) by {
            lemma_find_ctx_names(c1, c0, name);
        }
        assert forall|x: int, y: int|
            #[trigger] named_sum(c1, x, y) == named_sum(c0, x, y) && named_count(c1)
                == named_count(c0) by {
            lemma_named_sum_congr(c1, c0, x, y);
        }
        assert forall|x: int, y: int| #[trigger] null_w(c1, x, y) == null_w(c0, x, y) by {
            lemma_find_ctx_range(c0, Seq::<char>::empty());
        }
        assert forall|c: int, x: int, y: int|
            x >= self.node_infos@.len() || y >= self.node_infos@.len() implies #[trigger] w_of(
            c1,
            c,
            x,
            y,
        ) == 0 by {
            assert(w_of(c0, c, x, y) == 0);
            if 0 <= c < c1.len() {
                assert(c1[c].graph == c0[c].graph);
            }
        }
        assert forall|c: int, x: int, y: int|
            0 <= c < c1.len() && c1[c].name@.len() != 0 implies -MAX_EDGE_AMOUNT
            <= #[trigger] c1[c].graph.node_w(x, y) <= MAX_EDGE_AMOUNT by {
            assert(c1[c].graph == c0[c].graph);
            assert(-MAX_EDGE_AMOUNT <= c0[c].graph.node_w(x, y) <= MAX_EDGE_AMOUNT);
        }
    }
}


/// What a put-edge leaves behind, with `sid`/`did` the resolved ids of the
/// two names in the final state.  Weights of pairs not written are kept (or
/// seeded, for contexts created by the write); the written pair follows the
/// user-broadcast, direct-null or delta rule; the composition discrepancy of
/// non-user pairs is preserved; the source's rank caches are dropped.
pub open spec fn spec_put_edge(
    o: AugMultiGraph,
    f: AugMultiGraph,
    context: Seq<char>,
    src: Seq<char>,
    dst: Seq<char>,
    amount: int,
) -> bool {
    let sid = f.id_of(src);
    let did = f.id_of(dst);
    &&& sid >= 0 && did >= 0
    &&& f.kind_of(sid) == spec_kind_from_name(src)
    &&& find_ctx(f.contexts@, Seq::<char>::empty()) >= 0
    &&& find_ctx(f.contexts@, context) >= 0
    &&& o.contexts@.len() <= f.contexts@.len() <= o.contexts@.len() + 2
    &&& (forall|c: int|
        0 <= c < o.contexts@.len() ==> (#[trigger] f.contexts@[c]).name@ == o.contexts@[c].name@)
    &&& (forall|s: int, d: int, c: int|
        !(s == sid && d == did) && 0 <= c < f.contexts@.len() ==> #[trigger] w_of(
            f.contexts@,
            c,
            s,
            d,
        ) == (if c < o.contexts@.len() {
            w_of(o.contexts@, c, s, d)
        } else if f.contexts@[c].name@.len() == 0 {
            0int
        } else {
            o.seed_w(s, d)
        }))
    &&& (spec_kind_from_name(src) == NodeKind::User ==> forall|c: int|
        0 <= c < f.contexts@.len() ==> #[trigger] w_of(f.contexts@, c, sid, did) == amount)
    &&& (spec_kind_from_name(src) != NodeKind::User ==> w_of(
        f.contexts@,
        find_ctx(f.contexts@, context),
        sid,
        did,
    ) == amount)
    &&& (spec_kind_from_name(src) != NodeKind::User && context.len() != 0 ==> w_of(
        f.contexts@,
        find_ctx(f.contexts@, Seq::<char>::empty()),
        sid,
        did,
    ) == null_w(o.contexts@, sid, did) + amount - (if find_ctx(o.contexts@, context) >= 0 {
        w_of(o.contexts@, find_ctx(o.contexts@, context), sid, did)
    } else {
        0int
    }))
    &&& (spec_kind_from_name(src) != NodeKind::User ==> forall|c: int|
        0 <= c < f.contexts@.len() && c != find_ctx(f.contexts@, Seq::<char>::empty()) && c
            != find_ctx(f.contexts@, context) ==> #[trigger] w_of(f.contexts@, c, sid, did) == (
        if c < o.contexts@.len() {
            w_of(o.contexts@, c, sid, did)
        } else {
            0int
        }))
    &&& (spec_kind_from_name(src) != NodeKind::User && context.len() != 0 ==> forall|s: int, d: int|
        !o.is_user(s) ==> #[trigger] null_w(f.contexts@, s, d) - named_sum(f.contexts@, s, d)
            == null_w(o.contexts@, s, d) - named_sum(o.contexts@, s, d))
    &&& (forall|c: int, e: int|
        #[trigger] f.ranks_of(c, e) == if e == sid {
            None::<Seq<(NodeId, Weight)>>
        } else {
            o.ranks_of(c, e)
        })
}

impl AugMultiGraph {
    /// Put an edge: resolve both names (creating nodes as needed) and apply
    /// the canonical write.
    pub fn write_put_edge(&mut self, context: &str, src: &str, dst: &str, amount: Weight)
        requires
            (*old(self)).wf(),
            -MAX_EDGE_AMOUNT <= amount <= MAX_EDGE_AMOUNT,
        ensures
            final(self).wf(),
            final(self).zero_node@ == old(self).zero_node@,
            // node records are stable; the two names exist afterwards
            forall|i: int|
                0 <= i < old(self).node_infos@.len() ==> final(self).node_infos@[i] == old(self).node_infos@[i],
            old(self).node_infos@.len() <= final(self).node_infos@.len() <= old(self).node_infos@.len() + 2,
            (*old(self)).id_of(src@) >= 0 && (*old(self)).id_of(dst@) >= 0 ==> final(self).node_infos@
                == old(self).node_infos@,
            (*old(self)).can_write_ctx(context@) ==> spec_put_edge(
                *old(self),
                *final(self),
                context@,
                src@,
                dst@,
                amount as int,
            ),
            !(*old(self)).can_write_ctx(context@) ==> final(self).contexts@ == old(self).contexts@,
    {
        let ghost o = *old(self);
        let src_id = self.find_or_add_node_by_name(src);
        let dst_id = self.find_or_add_node_by_name(dst);
        let ghost mid = *self;
        proof {
            assert(mid.contexts@ == o.contexts@);
            assert(mid.can_write_ctx(context@) == o.can_write_ctx(context@));
            assert(mid.id_of(src@) == src_id) by {
                lemma_find_node_unique(mid.node_infos@, src@, src_id as int);
            }
            assert(mid.id_of(dst@) == dst_id) by {
                lemma_find_node_unique(mid.node_infos@, dst@, dst_id as int);
            }
            assert(mid.kind_of(src_id as int) == spec_kind_from_name(src@));
            assert(src_id < mid.node_count && dst_id < mid.node_count);
            assert forall|s: int, d: int| true implies #[trigger] mid.seed_w(s, d) == o.seed_w(
                s,
                d,
            ) by {
                if mid.is_user(s) && !o.is_user(s) {
                    assert(s >= o.node_infos@.len());
                    lemma_find_ctx_range(o.contexts@, Seq::<char>::empty());
                    assert(null_w(o.contexts@, s, d) == 0);
                }
            }
        }
        self.set_edge(context, src_id, dst_id, amount);
        proof {
            assert(self.id_of(src@) == src_id) by {
                lemma_find_node_unique(self.node_infos@, src@, src_id as int);
            }
            assert(self.id_of(dst@) == dst_id) by {
                lemma_find_node_unique(self.node_infos@, dst@, dst_id as int);
            }
            if o.can_write_ctx(context@) {
                assert forall|s: int, d: int| true implies #[trigger] null_w(o.contexts@, s, d)
                    - named_sum(o.contexts@, s, d) == null_w(mid.contexts@, s, d) - named_sum(
                    mid.contexts@,
                    s,
                    d,
                ) by {
                    assert(o.contexts@ == mid.contexts@);
                }
                assert(spec_put_edge(o, *self, context@, src@, dst@, amount as int)) by {
                    assert(o.contexts@ == mid.contexts@);
                    assert(forall|s: int| #[trigger] o.is_user(s) ==> mid.is_user(s));
                    if spec_kind_from_name(src@) != NodeKind::User {
                    assert forall|s: int, d: int|
                        !o.is_user(s) && mid.is_user(s) implies #[trigger] null_w(
                        self.contexts@,
                        s,
                        d,
                    ) - named_sum(self.contexts@, s, d) == null_w(o.contexts@, s, d) - named_sum(
                        o.contexts@,
                        s,
                        d,
                    ) by {
                        // a freshly added node has no weights anywhere
                        assert(s >= o.node_infos@.len());
                        assert(s != src_id as int) by {
                            assert(mid.kind_of(src_id as int) != NodeKind::User);
                        }
                        assert forall|c: int|
                            0 <= c < o.contexts@.len() implies (#[trigger] o.contexts@[c]).graph.node_w(
                            s,
                            d,
                        ) == 0 by {
                            assert(w_of(o.contexts@, c, s, d) == 0);
                        }
                        lemma_named_sum_const(o.contexts@, s, d, 0);
                        assert(named_count(o.contexts@) * 0 == 0) by (nonlinear_arith);
                        lemma_find_ctx_range(o.contexts@, Seq::<char>::empty());
                        assert(null_w(o.contexts@, s, d) == 0);
                        assert forall|c: int|
                            0 <= c < self.contexts@.len() implies (#[trigger] self.contexts@[c]).graph.node_w(
                            s,
                            d,
                        ) == 0 by {
                            assert(w_of(self.contexts@, c, s, d) == (if c < o.contexts@.len() {
                                w_of(o.contexts@, c, s, d)
                            } else if self.contexts@[c].name@.len() == 0 {
                                0int
                            } else {
                                o.seed_w(s, d)
                            }));
                        }
                        lemma_named_sum_const(self.contexts@, s, d, 0);
                        assert(named_count(self.contexts@) * 0 == 0) by (nonlinear_arith);
                        lemma_find_ctx_range(self.contexts@, Seq::<char>::empty());
                        assert(null_w(self.contexts@, s, d) == 0);
                    }
                    }
                }
            }
        }
    }
}


/// Clamp a normalised or contracted weight into the representable band.
pub open spec fn clamp_norm(x: int) -> int {
    if x > MAX_NORM_WEIGHT {
        MAX_NORM_WEIGHT as int
    } else if x < -MAX_NORM_WEIGHT {
        -MAX_NORM_WEIGHT as int
    } else {
        x
    }
}

/// A weight normalised by a positive sum: `w / ps` in fixed point, rounding
/// towards zero.  The divisor is the positive sum floored at the estimator's
/// epsilon (1e-10): a vanished positive sum divides by epsilon itself, so
/// the quotient is the weight scaled by `EPSILON_INV`, clamped into the
/// representable band.
pub open spec fn spec_normalized(w: int, ps: int) -> int {
    let mag = if w >= 0 {
        w
    } else {
        -w
    };
    let q = if ps <= 0 {
        mag * (EPSILON_INV as int)
    } else {
        mag * (WEIGHT_SCALE as int) / ps
    };
    clamp_norm(
        if w >= 0 {
            q
        } else {
            -q
        },
    )
}

/// Exec normalisation matching `spec_normalized`.
pub fn normalized_weight(w: Weight, ps: Weight) -> (r: Weight)
    requires
        -MAX_STORED_WEIGHT <= w <= MAX_STORED_WEIGHT,
        ps >= 0,
    ensures
        r as int == spec_normalized(w as int, ps as int),
        -MAX_NORM_WEIGHT <= r <= MAX_NORM_WEIGHT,
{
    let mag: Weight = if w >= 0 {
        w
    } else {
        -w
    };
    proof {
        assert((mag as u128) * (WEIGHT_SCALE as u128) <= (MAX_STORED_WEIGHT as u128) * (
        WEIGHT_SCALE as u128)) by (nonlinear_arith)
            requires (mag as u128) <= (MAX_STORED_WEIGHT as u128);
        assert((MAX_STORED_WEIGHT as u128) * (WEIGHT_SCALE as u128)
            == 4_000_000_000_000_000_000_000_000u128) by (nonlinear_arith);
        assert((mag as u128) * (EPSILON_INV as u128) <= (MAX_STORED_WEIGHT as u128) * (
        EPSILON_INV as u128)) by (nonlinear_arith)
            requires (mag as u128) <= (MAX_STORED_WEIGHT as u128);
        assert((MAX_STORED_WEIGHT as u128) * (EPSILON_INV as u128)
            == 40_000_000_000_000_000_000_000_000_000u128) by (nonlinear_arith);
    }
    let qu: u128 = if ps <= 0 {
        (mag as u128) * (EPSILON_INV as u128)
    } else {
        let prod: u128 = (mag as u128) * (WEIGHT_SCALE as u128);
        let d: u128 = prod / (ps as u128);
        proof {
            assert(d <= prod) by {
                assert(ps as u128 >= 1);
                vstd::arithmetic::div_mod::lemma_div_is_ordered_by_denominator(
                    prod as int,
                    1,
                    ps as int,
                );
            }
        }
        d
    };
    let q: Weight = qu as Weight;
    let signed: Weight = if w >= 0 {
        q
    } else {
        -q
    };
    if signed > MAX_NORM_WEIGHT {
        MAX_NORM_WEIGHT
    } else if signed < -MAX_NORM_WEIGHT {
        -MAX_NORM_WEIGHT
    } else {
        signed
    }
}

impl AugMultiGraph {
    /// Create a context on request; same behaviour as `create_context`.
    pub fn write_create_context(&mut self, context: &str)
        requires
            (*old(self)).wf(),
        ensures
            final(self).wf(),
            final(self).node_infos@ == old(self).node_infos@,
            final(self).node_count == old(self).node_count,
            final(self).zero_node@ == old(self).zero_node@,
            find_ctx(old(self).contexts@, context@) >= 0 ==> final(self).contexts@ == old(self).contexts@,
            find_ctx(old(self).contexts@, context@) < 0 && old(self).contexts@.len()
                < MAX_CONTEXTS ==> final(self).contexts@.len() == old(self).contexts@.len() + 1
                && (forall|c: int|
                0 <= c < old(self).contexts@.len() ==> final(self).contexts@[c] == old(self).contexts@[c])
                && final(self).contexts@.last().name@ == context@ && (forall|s: int, d: int|
                #[trigger] final(self).contexts@.last().graph.node_w(s, d) == if context@.len()
                    != 0 {
                    (*old(self)).seed_w(s, d)
                } else {
                    0int
                }),
    {
        self.create_context(context);
    }

    /// Drop all state.
    pub fn write_reset(&mut self)
        ensures
            final(self).wf(),
            final(self).node_infos@.len() == 0,
            final(self).contexts@.len() == 0,
    {
        self.reset();
    }

    /// Delete an edge: a no-op when either endpoint is unknown, otherwise a
    /// put of weight zero.
    pub fn write_delete_edge(&mut self, context: &str, src: &str, dst: &str)
        requires
            (*old(self)).wf(),
        ensures
            final(self).wf(),
            final(self).node_infos@ == old(self).node_infos@,
            final(self).zero_node@ == old(self).zero_node@,
            (*old(self)).id_of(src@) < 0 || (*old(self)).id_of(dst@) < 0 ==> *final(self) == *old(self),
            (*old(self)).id_of(src@) >= 0 && (*old(self)).id_of(dst@) >= 0 && (*old(self)).can_write_ctx(
                context@,
            ) ==> spec_put_edge(*old(self), *final(self), context@, src@, dst@, 0),
            !(*old(self)).can_write_ctx(context@) ==> final(self).contexts@ == old(self).contexts@,
    {
        if !self.node_exists(src) || !self.node_exists(dst) {
            return ;
        }
        self.write_put_edge(context, src, dst, 0);
    }

    /// The weight of `(src, dst)` in a context, creating the context first
    /// as any access does.
    pub fn edge_weight(&mut self, context: &str, src: NodeId, dst: NodeId) -> (r: Weight)
        requires
            (*old(self)).wf(),
        ensures
            final(self).wf(),
            final(self).node_infos@ == old(self).node_infos@,
            final(self).node_count == old(self).node_count,
            final(self).zero_node@ == old(self).zero_node@,
            r as int == w_of(
                final(self).contexts@,
                find_ctx(final(self).contexts@, context@),
                src as int,
                dst as int,
            ),
            find_ctx(old(self).contexts@, context@) >= 0 ==> final(self).contexts@ == old(self).contexts@
                && r as int == w_of(
                old(self).contexts@,
                find_ctx(old(self).contexts@, context@),
                src as int,
                dst as int,
            ),
            find_ctx(old(self).contexts@, context@) < 0 && old(self).contexts@.len()
                < MAX_CONTEXTS ==> r as int == (if context@.len() != 0 {
                (*old(self)).seed_w(src as int, dst as int)
            } else {
                0int
            }),
    {
        self.create_context(context);
        match self.ctx_index(context) {
            Some(c) => {
                let r = self.contexts[c].graph.edge_weight(src, dst);
                r
            },
            None => {
                proof {
                    lemma_find_ctx_range(self.contexts@, context@);
                }
                0
            },
        }
    }
}


impl AugMultiGraph {
    /// All outgoing neighbours of a node in a context: positive entries
    /// first, then negative ones.  The context is created on access.
    pub fn all_neighbors(&mut self, context: &str, node: NodeId) -> (r: Vec<(NodeId, Weight)>)
        requires
            (*old(self)).wf(),
        ensures
            final(self).wf(),
            final(self).node_infos@ == old(self).node_infos@,
            final(self).node_count == old(self).node_count,
            final(self).zero_node@ == old(self).zero_node@,
            find_ctx(old(self).contexts@, context@) >= 0 ==> final(self).contexts@ == old(self).contexts@,
            old(self).contexts@.len() <= final(self).contexts@.len() <= old(self).contexts@.len()
                + 1,
            forall|c: int|
                0 <= c < old(self).contexts@.len() ==> (#[trigger] final(self).contexts@[c]) == old(self).contexts@[c],
            (*old(self)).can_write_ctx(context@) ==> find_ctx(final(self).contexts@, context@) >= 0,
            forall|k: int|
                0 <= k < r@.len() ==> w_of(
                    final(self).contexts@,
                    find_ctx(final(self).contexts@, context@),
                    node as int,
                    (#[trigger] r@[k]).0 as int,
                ) == r@[k].1 && r@[k].1 != 0,
            forall|k1: int, k2: int| 0 <= k1 < k2 < r@.len() ==> (#[trigger] r@[k1]).0 != (#[trigger] r@[k2]).0,
            forall|d: int|
                w_of(
                    final(self).contexts@,
                    find_ctx(final(self).contexts@, context@),
                    node as int,
                    d,
                ) != 0 ==> crate::graph::has_dst(r@, d),
            forall|k1: int, k2: int|
                0 <= k1 < k2 < r@.len() && (#[trigger] r@[k1]).1 < 0 ==> (#[trigger] r@[k2]).1
                    < 0,
    {
        self.create_context(context);
        proof {
            if context@.len() == 0 {
                assert(context@ =~= Seq::<char>::empty());
            }
            if (*old(self)).can_write_ctx(context@) && find_ctx(old(self).contexts@, context@) < 0 {
                assert(old(self).contexts@.len() < MAX_CONTEXTS);
                lemma_find_ctx_push(
                    old(self).contexts@,
                    self.contexts@.last(),
                    context@,
                );
                assert(self.contexts@ =~= old(self).contexts@.push(self.contexts@.last()));
            }
        }
        match self.ctx_index(context) {
            Some(c) => self.contexts[c].graph.neighbors(node),
            None => {
                proof {
                    lemma_find_ctx_range(self.contexts@, context@);
                }
                Vec::new()
            },
        }
    }

    /// All outgoing neighbours with weights normalised by the node's
    /// positive sum.
    pub fn all_neighbors_normalized(&mut self, context: &str, node: NodeId) -> (r: Vec<
        (NodeId, Weight),
    >)
        requires
            (*old(self)).wf(),
        ensures
            final(self).wf(),
            final(self).node_infos@ == old(self).node_infos@,
            final(self).node_count == old(self).node_count,
            final(self).zero_node@ == old(self).zero_node@,
            find_ctx(old(self).contexts@, context@) >= 0 ==> final(self).contexts@ == old(self).contexts@,
            ({
                let ctxs = final(self).contexts@;
                let ci = find_ctx(ctxs, context@);
                let ps = if 0 <= ci < ctxs.len() {
                    ctxs[ci].graph.spec_pos_sum(node as int)
                } else {
                    0int
                };
                &&& (forall|k: int|
                    0 <= k < r@.len() ==> (#[trigger] r@[k]).1 == spec_normalized(
                        w_of(ctxs, ci, node as int, r@[k].0 as int),
                        ps,
                    ) && w_of(ctxs, ci, node as int, r@[k].0 as int) != 0)
                &&& (forall|k1: int, k2: int|
                    0 <= k1 < k2 < r@.len() ==> (#[trigger] r@[k1]).0 != (#[trigger] r@[k2]).0)
                &&& (forall|d: int|
                    w_of(ctxs, ci, node as int, d) != 0 ==> crate::graph::has_dst(r@, d))
            }),
    {
        self.create_context(context);
        match self.ctx_index(context) {
            Some(c) => {
                let nbrs = self.contexts[c].graph.neighbors(node);
                let ps = self.contexts[c].graph.pos_sum_of(node);
                proof {
                    if (node as int) < self.contexts@[c as int].graph.nodes@.len() {
                        crate::graph::lemma_sum_pos_bound(
                            self.contexts@[c as int].graph.nodes@[node as int].edges@,
                        );
                    }
                }
                let mut r: Vec<(NodeId, Weight)> = Vec::new();
                let n = nbrs.len();
                for k in 0..n
                    invariant
                        self.wf(),
                        c < self.contexts@.len(),
                        find_ctx(self.contexts@, context@) == c as int,
                        n == nbrs@.len(),
                        ps as int == self.contexts@[c as int].graph.spec_pos_sum(node as int),
                        ps >= 0,
                        forall|kk: int|
                            0 <= kk < nbrs@.len() ==> self.contexts@[c as int].graph.node_w(
                                node as int,
                                (#[trigger] nbrs@[kk]).0 as int,
                            ) == nbrs@[kk].1 && nbrs@[kk].1 != 0,
                        forall|kk1: int, kk2: int|
                            0 <= kk1 < kk2 < nbrs@.len() ==> (#[trigger] nbrs@[kk1]).0 != (
                            #[trigger] nbrs@[kk2]).0,
                        forall|d: int|
                            self.contexts@[c as int].graph.node_w(node as int, d) != 0
                                ==> crate::graph::has_dst(nbrs@, d),
                        r@.len() == k,
                        forall|kk: int| 0 <= kk < k ==> (#[trigger] r@[kk]).0 == nbrs@[kk].0,
                        forall|kk: int|
                            0 <= kk < k ==> (#[trigger] r@[kk]).1 == spec_normalized(
                                nbrs@[kk].1 as int,
                                ps as int,
                            ),
                {
                    let (d, w) = nbrs[k];
                    proof {
                        self.contexts@[c as int].graph.lemma_weight_bounded(
                            node as int,
                            d as int,
                        );
                    }
                    let nw = normalized_weight(w, ps);
                    r.push((d, nw));
                }
                proof {
                    assert forall|d: int|
                        w_of(self.contexts@, c as int, node as int, d) != 0 implies crate::graph::has_dst(
                        r@,
                        d,
                    ) by {
                        let kk = choose|kk: int|
                            0 <= kk < nbrs@.len() && (#[trigger] nbrs@[kk]).0 == d;
                        assert(r@[kk].0 == d);
                    }
                }
                r
            },
            None => {
                proof {
                    lemma_find_ctx_range(self.contexts@, context@);
                }
                Vec::new()
            },
        }
    }

    /// Zero every outgoing edge of a node in a context.  The node keeps its
    /// id and name; a no-op when the name is unknown.
    pub fn write_delete_node(&mut self, context: &str, node: &str)
        requires
            (*old(self)).wf(),
        ensures
            final(self).wf(),
            final(self).node_infos@ == old(self).node_infos@,
            final(self).zero_node@ == old(self).zero_node@,
            (*old(self)).id_of(node@) < 0 ==> *final(self) == *old(self),
            old(self).contexts@.len() <= final(self).contexts@.len(),
            forall|c: int|
                0 <= c < old(self).contexts@.len() ==> (#[trigger] final(self).contexts@[c]).name@
                    == old(self).contexts@[c].name@,
            (*old(self)).id_of(node@) >= 0 && (*old(self)).can_write_ctx(context@) ==> find_ctx(
                final(self).contexts@,
                context@,
            ) >= 0,
            (*old(self)).id_of(node@) >= 0 && (*old(self)).can_write_ctx(context@) ==> forall|d: int|
                #[trigger] w_of(
                    final(self).contexts@,
                    find_ctx(final(self).contexts@, context@),
                    (*old(self)).id_of(node@),
                    d,
                ) == 0,
    {
        if !self.node_exists(node) {
            return ;
        }
        let id = self.find_or_add_node_by_name(node);
        let nbrs = self.all_neighbors(context, id);
        let ghost start = *self;
        let n = nbrs.len();
        let ok_ctx = match self.ctx_index(context) {
            Some(_) => true,
            None => false,
        };
        let have_null = match self.ctx_index("") {
            Some(_) => true,
            None => false,
        };
        proof {
            reveal_strlit("");
            assert(""@ =~= Seq::<char>::empty());
        }
        if !ok_ctx || (!have_null && self.contexts.len() >= MAX_CONTEXTS) {
            // the needed contexts cannot exist: the write is a no-op
            proof {
                if (*old(self)).can_write_ctx(context@) {
                    assert(find_ctx(start.contexts@, context@) >= 0);
                    if !have_null {
                        lemma_find_ctx_range(old(self).contexts@, Seq::<char>::empty());
                        if find_ctx(old(self).contexts@, Seq::<char>::empty()) >= 0 {
                            let ni = find_ctx(old(self).contexts@, Seq::<char>::empty());
                            assert(start.contexts@[ni] == old(self).contexts@[ni]);
                            lemma_find_ctx_range(start.contexts@, Seq::<char>::empty());
                            assert(start.contexts@[ni].name@ != Seq::<char>::empty());
                        } else {
                            if context@.len() == 0 {
                                assert(context@ =~= Seq::<char>::empty());
                            } else {
                                assert(start.contexts@.len() < MAX_CONTEXTS);
                            }
                        }
                    }
                }
            }
            return ;
        }
        let ghost cidx = find_ctx(start.contexts@, context@);
        proof {
            lemma_find_ctx_range(start.contexts@, context@);
        }
        for k in 0..n
            invariant
                self.wf(),
                self.node_infos@ == start.node_infos@,
                self.node_count == start.node_count,
                self.zero_node@ == start.zero_node@,
                id < self.node_count,
                n == nbrs@.len(),
                start.wf(),
                0 <= cidx < start.contexts@.len(),
                start.contexts@[cidx].name@ == context@,
                start.contexts@.len() <= self.contexts@.len(),
                forall|c: int|
                    0 <= c < start.contexts@.len() ==> (#[trigger] self.contexts@[c]).name@
                        == start.contexts@[c].name@,
                find_ctx(self.contexts@, context@) == cidx,
                find_ctx(self.contexts@, Seq::<char>::empty()) >= 0 || self.contexts@.len()
                    < MAX_CONTEXTS,
                forall|kk: int|
                    0 <= kk < nbrs@.len() ==> w_of(
                        start.contexts@,
                        cidx,
                        id as int,
                        (#[trigger] nbrs@[kk]).0 as int,
                    ) == nbrs@[kk].1 && nbrs@[kk].1 != 0,
                forall|d: int|
                    w_of(start.contexts@, cidx, id as int, d) != 0 ==> crate::graph::has_dst(
                        nbrs@,
                        d,
                    ),
                forall|kk: int|
                    0 <= kk < k ==> w_of(
                        self.contexts@,
                        cidx,
                        id as int,
                        (#[trigger] nbrs@[kk]).0 as int,
                    ) == 0,
                forall|d: int|
                    #[trigger] w_of(self.contexts@, cidx, id as int, d) == 0 || w_of(
                        self.contexts@,
                        cidx,
                        id as int,
                        d,
                    ) == w_of(start.contexts@, cidx, id as int, d),
        {
            let d = nbrs[k].0;
            proof {
                assert(w_of(start.contexts@, cidx, id as int, d as int) != 0);
                assert(d < start.node_infos@.len());
                assert(self.can_write_ctx(context@)) by {
                    lemma_find_ctx_range(self.contexts@, Seq::<char>::empty());
                }
            }
            let ghost before = *self;
            self.set_edge(context, id, d, 0);
            proof {
                assert forall|c: int|
                    0 <= c < start.contexts@.len() implies (#[trigger] self.contexts@[c]).name@
                    == start.contexts@[c].name@ by {
                    assert(self.contexts@[c].name@ == before.contexts@[c].name@);
                }
                assert(find_ctx(self.contexts@, context@) == cidx) by {
                    lemma_find_ctx_unique(self.contexts@, context@, cidx);
                }
                assert(w_of(self.contexts@, cidx, id as int, d as int) == 0) by {
                    assert(find_ctx(self.contexts@, context@) == cidx);
                }
                assert forall|dd: int|
                    #[trigger] w_of(self.contexts@, cidx, id as int, dd) == 0 || w_of(
                        self.contexts@,
                        cidx,
                        id as int,
                        dd,
                    ) == w_of(start.contexts@, cidx, id as int, dd) by {
                    if dd != d {
                        assert(w_of(self.contexts@, cidx, id as int, dd) == w_of(
                            before.contexts@,
                            cidx,
                            id as int,
                            dd,
                        ));
                    }
                }
            }
        }
        proof {
            assert forall|d: int|
                #[trigger] w_of(self.contexts@, find_ctx(self.contexts@, context@), id as int, d)
                == 0 by {
                if w_of(self.contexts@, cidx, id as int, d) != 0 {
                    assert(w_of(self.contexts@, cidx, id as int, d) == w_of(
                        start.contexts@,
                        cidx,
                        id as int,
                        d,
                    ));
                    assert(crate::graph::has_dst(nbrs@, d));
                    let kk = choose|kk: int|
                        0 <= kk < nbrs@.len() && (#[trigger] nbrs@[kk]).0 == d;
                    assert(w_of(self.contexts@, cidx, id as int, nbrs@[kk].0 as int) == 0);
                }
            }
        }
    }
}


impl AugMultiGraph {
    /// The weight of `(src, dst)` normalised by the source's positive sum,
    /// the divisor floored at the estimator's epsilon.
    pub fn edge_weight_normalized(&mut self, context: &str, src: NodeId, dst: NodeId) -> (r:
        Weight)
        requires
            old(self).wf(),
        ensures
            final(self).wf(),
            final(self).node_infos@ == old(self).node_infos@,
            final(self).node_count == old(self).node_count,
            final(self).zero_node@ == old(self).zero_node@,
            find_ctx(old(self).contexts@, context@) >= 0 ==> final(self).contexts@ == old(self).contexts@,
            -MAX_NORM_WEIGHT <= r <= MAX_NORM_WEIGHT,
            ({
                let ctxs = final(self).contexts@;
                let ci = find_ctx(ctxs, context@);
                0 <= ci < ctxs.len() ==> r as int == spec_normalized(
                    ctxs[ci].graph.node_w(src as int, dst as int),
                    ctxs[ci].graph.spec_pos_sum(src as int),
                )
            }),
    {
        self.create_context(context);
        match self.ctx_index(context) {
            Some(c) => {
                let w = self.contexts[c].graph.edge_weight(src, dst);
                let ps = self.contexts[c].graph.pos_sum_of(src);
                proof {
                    self.lemma_all_weights_stored(c as int, src as int, dst as int);
                    if (src as int) < self.contexts@[c as int].graph.nodes@.len() {
                        crate::graph::lemma_sum_pos_bound(
                            self.contexts@[c as int].graph.nodes@[src as int].edges@,
                        );
                    }
                }
                normalized_weight(w, ps)
            },
            None => {
                proof {
                    lemma_find_ctx_range(self.contexts@, context@);
                }
                0
            },
        }
    }
}


/// Writing the same edge twice leaves every context of the once-written
/// state with the same weights as after the first write: the broadcast
/// rewrites the same amount, and the delta rule cancels
/// (`null + amount - amount == null`).
pub proof fn lemma_put_edge_idempotent(
    a: AugMultiGraph,
    b: AugMultiGraph,
    c: AugMultiGraph,
    context: Seq<char>,
    src: Seq<char>,
    dst: Seq<char>,
    amount: int,
)
    requires
        spec_put_edge(a, b, context, src, dst, amount),
        spec_put_edge(b, c, context, src, dst, amount),
        b.id_of(src) == c.id_of(src),
        b.id_of(dst) == c.id_of(dst),
    ensures
        forall|ci: int, s: int, d: int|
            0 <= ci < b.contexts@.len() ==> #[trigger] w_of(c.contexts@, ci, s, d) == w_of(
                b.contexts@,
                ci,
                s,
                d,
            ),
{
    let sid = c.id_of(src);
    let did = c.id_of(dst);
    assert forall|ci: int, s: int, d: int|
        0 <= ci < b.contexts@.len() implies #[trigger] w_of(c.contexts@, ci, s, d) == w_of(
        b.contexts@,
        ci,
        s,
        d,
    ) by {
        if s == sid && d == did {
            if spec_kind_from_name(src) == NodeKind::User {
                assert(w_of(c.contexts@, ci, s, d) == amount);
                assert(w_of(b.contexts@, ci, s, d) == amount);
            } else {
                lemma_find_ctx_range(c.contexts@, context);
                lemma_find_ctx_range(c.contexts@, Seq::<char>::empty());
                if ci == find_ctx(c.contexts@, context) {
                    assert(w_of(c.contexts@, ci, s, d) == amount);
                    assert(find_ctx(b.contexts@, context) == ci) by {
                        lemma_find_ctx_names_prefix(b.contexts@, c.contexts@, context);
                    }
                    assert(w_of(b.contexts@, ci, s, d) == amount);
                } else if ci == find_ctx(c.contexts@, Seq::<char>::empty()) && context.len()
                    != 0 {
                    assert(find_ctx(b.contexts@, Seq::<char>::empty()) == ci) by {
                        lemma_find_ctx_names_prefix(
                            b.contexts@,
                            c.contexts@,
                            Seq::<char>::empty(),
                        );
                    }
                    assert(find_ctx(b.contexts@, context) >= 0);
                    assert(w_of(b.contexts@, find_ctx(b.contexts@, context), sid, did)
                        == amount);
                    assert(find_ctx(c.contexts@, context) == find_ctx(b.contexts@, context)) by {
                        lemma_find_ctx_names_prefix(b.contexts@, c.contexts@, context);
                    }
                    assert(w_of(c.contexts@, ci, sid, did) == null_w(b.contexts@, sid, did)
                        + amount - amount);
                    assert(null_w(b.contexts@, sid, did) == w_of(b.contexts@, ci, sid, did)) by {
                        lemma_find_ctx_range(b.contexts@, Seq::<char>::empty());
                    }
                } else {
                    if context.len() == 0 {
                        assert(context =~= Seq::<char>::empty());
                    }
                    assert(w_of(c.contexts@, ci, s, d) == w_of(b.contexts@, ci, s, d));
                }
            }
        } else {
            assert(w_of(c.contexts@, ci, s, d) == w_of(b.contexts@, ci, s, d));
        }
    }
}

/// `find_ctx` agrees between a state and an extension of it that keeps the
/// earlier names, provided the name is found among the earlier contexts.
pub proof fn lemma_find_ctx_names_prefix(b: Seq<ContextState>, c: Seq<ContextState>, name: Seq<
    char,
>)
    requires
        b.len() <= c.len(),
        forall|i: int| 0 <= i < b.len() ==> (#[trigger] c[i]).name@ == b[i].name@,
        find_ctx(b, name) >= 0,
    ensures
        find_ctx(c, name) == find_ctx(b, name),
    decreases b.len(),
{
    if b.len() > 0 {
        if b[0].name@ == name {
            assert(c[0].name@ == name);
        } else {
            assert(c[0].name@ == b[0].name@);
            assert(forall|i: int|
                0 <= i < b.drop_first().len() ==> (#[trigger] b.drop_first()[i]) == b[i + 1]);
            assert(forall|i: int|
                0 <= i < c.drop_first().len() ==> (#[trigger] c.drop_first()[i]) == c[i + 1]);
            lemma_find_ctx_names_prefix(b.drop_first(), c.drop_first(), name);
        }
    }
}

/// Writing an edge and then deleting it zeroes the context weight and moves
/// the null weight to exactly its old value minus the edge's old context
/// weight: when the edge was absent before the pair, the null weight is
/// restored.
pub proof fn lemma_put_then_delete(
    a: AugMultiGraph,
    b: AugMultiGraph,
    c: AugMultiGraph,
    context: Seq<char>,
    src: Seq<char>,
    dst: Seq<char>,
    amount: int,
)
    requires
        spec_put_edge(a, b, context, src, dst, amount),
        spec_put_edge(b, c, context, src, dst, 0),
        b.id_of(src) == c.id_of(src),
        b.id_of(dst) == c.id_of(dst),
        spec_kind_from_name(src) != NodeKind::User,
        context.len() != 0,
    ensures
        w_of(c.contexts@, find_ctx(c.contexts@, context), c.id_of(src), c.id_of(dst)) == 0,
        null_w(c.contexts@, c.id_of(src), c.id_of(dst)) == null_w(
            a.contexts@,
            c.id_of(src),
            c.id_of(dst),
        ) - (if find_ctx(a.contexts@, context) >= 0 {
            w_of(a.contexts@, find_ctx(a.contexts@, context), c.id_of(src), c.id_of(dst))
        } else {
            0int
        }),
{
    let sid = c.id_of(src);
    let did = c.id_of(dst);
    lemma_find_ctx_range(c.contexts@, context);
    assert(find_ctx(b.contexts@, context) == find_ctx(c.contexts@, context)) by {
        lemma_find_ctx_names_prefix(b.contexts@, c.contexts@, context);
    }
    assert(null_w(c.contexts@, sid, did) == null_w(b.contexts@, sid, did) + 0 - w_of(
        b.contexts@,
        find_ctx(b.contexts@, context),
        sid,
        did,
    ));
    assert(w_of(b.contexts@, find_ctx(b.contexts@, context), sid, did) == amount);
    assert(null_w(b.contexts@, sid, did) == null_w(a.contexts@, sid, did) + amount - (
    if find_ctx(a.contexts@, context) >= 0 {
        w_of(a.contexts@, find_ctx(a.contexts@, context), sid, did)
    } else {
        0int
    }));
}


/// Composition: for a pair whose source is not a user node, a write into a
/// named context keeps the null weight equal to the sum of the named
/// context weights whenever it was equal before.  User-sourced pairs are
/// excluded: their broadcast sets every context to the same amount, and a
/// direct write into the null context sets the null weight alone.
pub proof fn lemma_composition_invariant(
    o: AugMultiGraph,
    f: AugMultiGraph,
    context: Seq<char>,
    src: Seq<char>,
    dst: Seq<char>,
    amount: int,
    s: int,
    d: int,
)
    requires
        spec_put_edge(o, f, context, src, dst, amount),
        spec_kind_from_name(src) != NodeKind::User,
        context.len() != 0,
        !o.is_user(s),
        null_w(o.contexts@, s, d) == named_sum(o.contexts@, s, d),
    ensures
        null_w(f.contexts@, s, d) == named_sum(f.contexts@, s, d),
{
}


impl AugMultiGraph {
    /// All context names, in creation order.
    pub fn read_context_list(&self) -> (r: Vec<String>)
        ensures
            r@.len() == self.contexts@.len(),
            forall|i: int| 0 <= i < r@.len() ==> (#[trigger] r@[i])@ == self.contexts@[i].name@,
    {
        let mut r: Vec<String> = Vec::new();
        let n = self.contexts.len();
        for i in 0..n
            invariant
                n == self.contexts@.len(),
                r@.len() == i,
                forall|j: int| 0 <= j < i ==> (#[trigger] r@[j])@ == self.contexts@[j].name@,
        {
            r.push(self.contexts[i].name.clone());
        }
        r
    }
}

} // verus!
