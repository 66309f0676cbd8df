//! The query surface: pointwise scores, ranked lists, neighbourhoods and
//! edge enumerations, served from the engine state and the rank caches.
//!
//! Scores come from the external random-walk estimator: the caller runs it
//! and feeds the resulting ranks in through `put_ranks`; queries read the
//! cache and return zero or empty results for egos whose walks are missing,
//! mirroring the recover-or-zero policy of the service.

use vstd::prelude::*;
use vstd::multiset::Multiset;
use vstd::string::StringSliceAdditionalSpecFns;
use crate::engine::{AugMultiGraph, ContextState, find_ctx, find_node, lemma_find_ctx_range, lemma_find_node_range, lemma_find_node_unique, null_w, str_eq, w_of};
use crate::graph::{find_w, has_dst, lemma_find_w_absent, lemma_find_w_first};
use crate::nodes::{NodeInfo, NodeKind};
use crate::{NodeId, Weight, MAX_CONTEXTS, MAX_EDGE_AMOUNT};

verus! {

/// Magnitude of a weight.
pub open spec fn abs_w(w: int) -> int {
    if w >= 0 {
        w
    } else {
        -w
    }
}

/// Exec magnitude as an unsigned value (total, also at the extreme).
pub fn weight_abs(w: Weight) -> (r: u128)
    ensures
        r == abs_w(w as int),
{
    if w >= 0 {
        w as u128
    } else {
        ((-(w + 1)) as u128) + 1
    }
}

/// Sort pairs by descending weight magnitude (selection of the maximum,
/// which keeps equal keys in their first-found order).
pub fn sort_pairs_desc(input: Vec<(NodeId, Weight)>) -> (r: Vec<(NodeId, Weight)>)
    ensures
        r@.len() == input@.len(),
        r@.to_multiset() == input@.to_multiset(),
        forall|k1: int, k2: int|
            0 <= k1 < k2 < r@.len() ==> abs_w((#[trigger] r@[k1]).1 as int) >= abs_w(
                (#[trigger] r@[k2]).1 as int,
            ),
{
    broadcast use vstd::seq_lib::group_to_multiset_ensures;

    let mut rest = input;
    let mut out: Vec<(NodeId, Weight)> = Vec::new();
    let ghost total = input@.to_multiset();
    proof {
        assert(out@.to_multiset().add(rest@.to_multiset()) =~= total);
    }
    while rest.len() > 0
        invariant
            out@.to_multiset().add(rest@.to_multiset()) == total,
            out@.len() + rest@.len() == input@.len(),
            forall|k1: int, k2: int|
                0 <= k1 < k2 < out@.len() ==> abs_w((#[trigger] out@[k1]).1 as int) >= abs_w(
                    (#[trigger] out@[k2]).1 as int,
                ),
            forall|k: int, i: int|
                0 <= k < out@.len() && 0 <= i < rest@.len() ==> abs_w(
                    (#[trigger] out@[k]).1 as int,
                ) >= abs_w((#[trigger] rest@[i]).1 as int),
        decreases rest@.len(),
    {
        let n = rest.len();
        let mut mi: usize = 0;
        for i in 1..n
            invariant
                n == rest@.len(),
                mi < n,
                forall|j: int|
                    0 <= j < i ==> abs_w(rest@[mi as int].1 as int) >= abs_w(
                        (#[trigger] rest@[j]).1 as int,
                    ),
        {
            if weight_abs(rest[i].1) > weight_abs(rest[mi].1) {
                mi = i;
            }
        }
        let ghost rest0 = rest@;
        let e = rest.remove(mi);
        let ghost out0 = out@;
        out.push(e);
        proof {
            broadcast use vstd::multiset::group_multiset_axioms;

            assert(rest@ == rest0.remove(mi as int));
            assert(out@ == out0.push(e));
            out0.to_multiset_ensures();
            rest0.to_multiset_ensures();
            assert(out0.push(e).to_multiset() =~= out0.to_multiset().insert(e));
            assert(rest0.remove(mi as int).to_multiset() =~= rest0.to_multiset().remove(e));
            assert(rest0.contains(e));
            assert(rest0.to_multiset().count(e) > 0);
            assert(out@.to_multiset().add(rest@.to_multiset()) =~= total);
            rest0.remove_ensures(mi as int);
            assert forall|k: int, i: int|
                0 <= k < out@.len() && 0 <= i < rest@.len() implies abs_w(
                (#[trigger] out@[k]).1 as int,
            ) >= abs_w((#[trigger] rest@[i]).1 as int) by {
                let i0 = if i < mi {
                    i
                } else {
                    i + 1
                };
                assert(rest@[i] == rest0[i0]);
                if k < out0.len() {
                    assert(out@[k] == out0[k]);
                } else {
                    assert(out@[k] == e);
                }
            }
        }
    }
    proof {
        assert(rest@.to_multiset() =~= Multiset::<(NodeId, Weight)>::empty());
        assert(out@.to_multiset().add(rest@.to_multiset()) =~= out@.to_multiset());
    }
    out
}

/// The cached rank list for an ego in a context of a context list.
pub open spec fn cached_ranks_at(
    ctxs: Seq<ContextState>,
    context: Seq<char>,
    ego: int,
) -> Option<Seq<(NodeId, Weight)>> {
    crate::engine::ranks_at(ctxs, find_ctx(ctxs, context), ego)
}

/// The cached score of a target as seen by an ego in a context list; 0 when
/// no walks are cached or the target does not appear in them.
pub open spec fn cached_score_at(
    ctxs: Seq<ContextState>,
    context: Seq<char>,
    ego: int,
    target: int,
) -> int {
    match cached_ranks_at(ctxs, context, ego) {
        Some(v) => find_w(v, target),
        None => 0,
    }
}

impl AugMultiGraph {
    /// The cached rank list for an ego in a context, if walks have been fed
    /// in since the last write touching the ego.
    pub open spec fn cached_ranks(self, context: Seq<char>, ego: int) -> Option<
        Seq<(NodeId, Weight)>,
    > {
        cached_ranks_at(self.contexts@, context, ego)
    }

    /// The cached score of a target as seen by an ego; 0 when no walks are
    /// cached or the target does not appear in them.
    pub open spec fn cached_score(self, context: Seq<char>, ego: int, target: int) -> int {
        cached_score_at(self.contexts@, context, ego, target)
    }

    /// Exec lookup of a node id by name, without creating the node.
    pub fn find_node_id(&self, name: &str) -> (r: Option<NodeId>)
        requires
            self.wf(),
        ensures
            match r {
                Some(id) => self.id_of(name@) == id && id < self.node_infos@.len(),
                None => self.id_of(name@) < 0,
            },
    {
        let n = self.node_infos.len();
        for i in 0..n
            invariant
                self.wf(),
                n == self.node_infos@.len(),
                forall|j: int| 0 <= j < i ==> (#[trigger] self.node_infos@[j]).name@ != name@,
        {
            if str_eq(self.node_infos[i].name.as_str(), name) {
                proof {
                    lemma_find_node_unique(self.node_infos@, name@, i as int);
                }
                return Some(i);
            }
        }
        proof {
            lemma_find_node_range(self.node_infos@, name@);
        }
        None
    }

    /// First-match lookup in a rank list.
    fn rank_lookup(v: &Vec<(NodeId, Weight)>, target: NodeId) -> (r: Weight)
        ensures
            r as int == find_w(v@, target as int),
    {
        let n = v.len();
        for i in 0..n
            invariant
                n == v@.len(),
                forall|j: int| 0 <= j < i ==> (#[trigger] v@[j]).0 != target,
        {
            if v[i].0 == target {
                proof {
                    lemma_find_w_first(v@, i as int, target as int);
                }
                return v[i].1;
            }
        }
        proof {
            lemma_find_w_absent(v@, target as int);
        }
        0
    }

    /// Whether walks for this ego are cached in this context.
    pub fn ranks_fresh(&self, context: &str, ego: &str) -> (r: bool)
        requires
            self.wf(),
        ensures
            r == (self.id_of(ego@) >= 0 && self.cached_ranks(context@, self.id_of(ego@)) is Some),
    {
        let id = match self.find_node_id(ego) {
            Some(id) => id,
            None => {
                return false;
            },
        };
        match self.context_index(context) {
            Some(c) => {
                if id < self.contexts[c].ranks.len() {
                    match &self.contexts[c].ranks[id] {
                        Some(_) => true,
                        None => false,
                    }
                } else {
                    false
                }
            },
            None => false,
        }
    }

    /// Feed estimator results into the rank cache: the ranks of `ego` in
    /// `context` become exactly the given list.
    pub fn put_ranks(&mut self, context: &str, ego: &str, ranks: Vec<(NodeId, Weight)>)
        requires
            (*old(self)).wf(),
        ensures
            final(self).wf(),
            forall|i: int|
                0 <= i < old(self).node_infos@.len() ==> final(self).node_infos@[i] == old(self).node_infos@[i],
            final(self).id_of(ego@) >= 0,
            old(self).contexts@.len() < MAX_CONTEXTS || find_ctx(old(self).contexts@, context@)
                >= 0 ==> final(self).cached_ranks(context@, final(self).id_of(ego@)) == Some(
                ranks@,
            ),
            // weights are untouched
            forall|c: int, s: int, d: int|
                0 <= c < old(self).contexts@.len() ==> #[trigger] w_of(
                    final(self).contexts@,
                    c,
                    s,
                    d,
                ) == w_of(old(self).contexts@, c, s, d),
    {
        let id = self.find_or_add_node_by_name(ego);
        self.create_context(context);
        let ghost pre = *self;
        match self.context_index(context) {
            Some(c) => {
                while self.contexts[c].ranks.len() <= id
                    invariant
                        c < self.contexts@.len(),
                        self.contexts@.len() == pre.contexts@.len(),
                        forall|cc: int|
                            0 <= cc < self.contexts@.len() && cc != c ==> (
                            #[trigger] self.contexts@[cc]) == pre.contexts@[cc],
                        self.contexts@[c as int].name@ == pre.contexts@[c as int].name@,
                        self.contexts@[c as int].graph == pre.contexts@[c as int].graph,
                        forall|e: int|
                            0 <= e < pre.contexts@[c as int].ranks@.len()
                                && e < self.contexts@[c as int].ranks@.len() ==> (
                            #[trigger] self.contexts@[c as int].ranks@[e])
                                == pre.contexts@[c as int].ranks@[e],
                        forall|e: int|
                            pre.contexts@[c as int].ranks@.len() <= e
                                < self.contexts@[c as int].ranks@.len() ==> (
                            #[trigger] self.contexts@[c as int].ranks@[e]) is None,
                        self.contexts@[c as int].ranks@.len()
                            >= pre.contexts@[c as int].ranks@.len(),
                        self.node_infos@ == pre.node_infos@,
                        self.node_count == pre.node_count,
                        self.zero_node@ == pre.zero_node@,
                    decreases id + 1 - self.contexts@[c as int].ranks@.len(),
                {
                    self.contexts[c].ranks.push(None);
                }
                self.contexts[c].ranks[id] = Some(ranks);
                proof {
                    self.lemma_wf_ranks_congr(pre);
                    lemma_find_node_unique(self.node_infos@, ego@, id as int);
                    assert(find_ctx(self.contexts@, context@) == c as int) by {
                        crate::engine::lemma_find_ctx_names(
                            self.contexts@,
                            pre.contexts@,
                            context@,
                        );
                    }
                    assert(self.ranks_of(c as int, id as int) == Some(ranks@));
                    assert forall|cc: int, s: int, d: int|
                        0 <= cc < old(self).contexts@.len() implies #[trigger] w_of(
                        self.contexts@,
                        cc,
                        s,
                        d,
                    ) == w_of(old(self).contexts@, cc, s, d) by {
                        assert(self.contexts@[cc].graph == pre.contexts@[cc].graph);
                        assert(pre.contexts@[cc] == old(self).contexts@[cc]);
                    }
                }
            },
            None => {
                proof {
                    self.lemma_wf_ranks_congr(pre);
                    lemma_find_node_unique(self.node_infos@, ego@, id as int);
                    lemma_find_ctx_range(self.contexts@, context@);
                    // creation failed: the context was absent and the cap
                    // was reached
                    assert(find_ctx(old(self).contexts@, context@) < 0);
                    assert(!(old(self).contexts@.len() < MAX_CONTEXTS)) by {
                        if old(self).contexts@.len() < MAX_CONTEXTS {
                            assert(self.contexts@.last().name@ == context@);
                            crate::engine::lemma_named_sum_push(
                                old(self).contexts@,
                                self.contexts@.last(),
                                0,
                                0,
                            );
                            assert(self.contexts@ =~= old(self).contexts@.push(
                                self.contexts@.last(),
                            ));
                        }
                    }
                }
            },
        }
    }

    /// The score of `target` as seen by `ego`: one row, zero when the
    /// context or either node is unknown or no walks are cached.
    pub fn read_node_score(&self, context: &str, ego: &str, target: &str) -> (r: Vec<
        (String, String, Weight),
    >)
        requires
            self.wf(),
        ensures
            r@.len() == 1,
            r@[0].0@ == ego@,
            r@[0].1@ == target@,
            r@[0].2 as int == (if find_ctx(self.contexts@, context@) >= 0 && self.id_of(ego@) >= 0
                && self.id_of(target@) >= 0 {
                self.cached_score(context@, self.id_of(ego@), self.id_of(target@))
            } else {
                0int
            }),
    {
        let mut r: Vec<(String, String, Weight)> = Vec::new();
        let ctx_ok = match self.context_index(context) {
            Some(_) => true,
            None => false,
        };
        let ego_id = self.find_node_id(ego);
        let target_id = self.find_node_id(target);
        let w: Weight = match (ctx_ok, ego_id, target_id) {
            (true, Some(e), Some(t)) => self.score_lookup(context, e, t),
            _ => 0,
        };
        r.push((ego.to_owned(), target.to_owned(), w));
        r
    }

    /// Exec lookup of a cached score.
    fn score_lookup(&self, context: &str, ego: NodeId, target: NodeId) -> (r: Weight)
        requires
            self.wf(),
        ensures
            r as int == self.cached_score(context@, ego as int, target as int),
    {
        match self.context_index(context) {
            Some(c) => {
                if ego < self.contexts[c].ranks.len() {
                    match &self.contexts[c].ranks[ego] {
                        Some(v) => Self::rank_lookup(v, target),
                        None => 0,
                    }
                } else {
                    0
                }
            },
            None => 0,
        }
    }
}


/// A node's name in a registry, or the empty name for an unregistered id.
pub open spec fn name_of(infos: Seq<NodeInfo>, id: int) -> Seq<char> {
    if 0 <= id < infos.len() {
        infos[id].name@
    } else {
        Seq::<char>::empty()
    }
}

/// The returned rows are exactly the `[index, index + len)` window of a
/// sorted permutation of the filtered list, mapped to names.
pub open spec fn scores_window_ok(
    infos: Seq<NodeInfo>,
    fl: Seq<(NodeId, Weight)>,
    sortedw: Seq<(NodeId, Weight)>,
    index: int,
    rows: Seq<(String, String, Weight)>,
) -> bool {
    &&& sortedw.len() == fl.len()
    &&& sortedw.to_multiset() == fl.to_multiset()
    &&& (forall|k1: int, k2: int|
        0 <= k1 < k2 < sortedw.len() ==> abs_w((#[trigger] sortedw[k1]).1 as int) >= abs_w(
            (#[trigger] sortedw[k2]).1 as int,
        ))
    &&& (forall|k: int|
        #![trigger rows[k]]
        0 <= k < rows.len() ==> 0 <= k + index < sortedw.len() && rows[k].1@ == name_of(
            infos,
            sortedw[k + index].0 as int,
        ) && rows[k].2 == sortedw[k + index].1)
}

/// The returned feed rows are exactly a sorted permutation of the unmarked
/// list, mapped to names.
pub open spec fn beacons_window_ok(
    infos: Seq<NodeInfo>,
    fl: Seq<(NodeId, Weight)>,
    sortedw: Seq<(NodeId, Weight)>,
    rows: Seq<(String, Weight)>,
) -> bool {
    &&& sortedw.len() == fl.len()
    &&& sortedw.to_multiset() == fl.to_multiset()
    &&& rows.len() == sortedw.len()
    &&& (forall|k: int|
        #![trigger rows[k]]
        0 <= k < rows.len() ==> rows[k].0@ == name_of(infos, sortedw[k].0 as int) && rows[k].1
            == sortedw[k].1)
}

/// The returned rows are exactly the neighbour list of `eid`, mapped to
/// names: one row per outgoing edge, in list order.
pub open spec fn connected_window_ok(
    infos: Seq<NodeInfo>,
    ctxs: Seq<ContextState>,
    ci: int,
    eid: int,
    nb: Seq<(NodeId, Weight)>,
    rows: Seq<(String, String)>,
) -> bool {
    &&& (forall|k: int|
        #![trigger nb[k]]
        0 <= k < nb.len() ==> w_of(ctxs, ci, eid, nb[k].0 as int) == nb[k].1 && nb[k].1 != 0)
    &&& (forall|k1: int, k2: int| 0 <= k1 < k2 < nb.len() ==> (#[trigger] nb[k1]).0 != (#[trigger] nb[k2]).0)
    &&& (forall|d: int| w_of(ctxs, ci, eid, d) != 0 ==> has_dst(nb, d))
    &&& rows.len() == nb.len()
    &&& (forall|k: int|
        #![trigger rows[k]]
        0 <= k < rows.len() ==> rows[k].1@ == name_of(infos, nb[k].0 as int))
}

/// The kind filter a request string denotes, if valid.
pub open spec fn spec_kind_filter(ks: Seq<char>) -> Option<NodeKind> {
    if ks == ""@ {
        Some(NodeKind::Unknown)
    } else if ks == "U"@ {
        Some(NodeKind::User)
    } else if ks == "B"@ {
        Some(NodeKind::Beacon)
    } else if ks == "C"@ {
        Some(NodeKind::Comment)
    } else {
        None
    }
}

impl AugMultiGraph {
    /// Whether one scored row passes the ranked-list filters: kind filter,
    /// score window, and the hide-personal rule (drop comments and beacons
    /// that link back to the ego).
    pub open spec fn row_passes(
        self,
        ctxi: int,
        ego: int,
        kind_filter: NodeKind,
        hide_personal: bool,
        lt: int,
        lte: bool,
        gt: int,
        gte: bool,
        t: int,
        w: int,
    ) -> bool {
        let k = self.kind_of(t);
        &&& (kind_filter == NodeKind::Unknown || kind_filter == k)
        &&& (gt < w || (gte && gt <= w))
        &&& (w < lt || (lte && w <= lt))
        &&& ((hide_personal && (k == NodeKind::Comment || k == NodeKind::Beacon)) ==> w_of(
            self.contexts@,
            ctxi,
            t,
            ego,
        ) == 0)
    }

    /// The rank rows that pass the filters, in rank order.
    pub open spec fn filtered_scores(
        self,
        ctxi: int,
        ego: int,
        kind_filter: NodeKind,
        hide_personal: bool,
        lt: int,
        lte: bool,
        gt: int,
        gte: bool,
        rs: Seq<(NodeId, Weight)>,
    ) -> Seq<(NodeId, Weight)>
        decreases rs.len(),
    {
        if rs.len() == 0 {
            Seq::empty()
        } else {
            let rest = self.filtered_scores(
                ctxi,
                ego,
                kind_filter,
                hide_personal,
                lt,
                lte,
                gt,
                gte,
                rs.drop_last(),
            );
            if self.row_passes(
                ctxi,
                ego,
                kind_filter,
                hide_personal,
                lt,
                lte,
                gt,
                gte,
                rs.last().0 as int,
                rs.last().1 as int,
            ) {
                rest.push(rs.last())
            } else {
                rest
            }
        }
    }

    /// A node's name, or the empty name for an unregistered id.
    pub open spec fn name_or_empty(self, id: int) -> Seq<char> {
        name_of(self.node_infos@, id)
    }

    /// Each returned row carries a name and score taken from some filtered
    /// rank entry.
    pub open spec fn rows_from(
        self,
        fl: Seq<(NodeId, Weight)>,
        rows: Seq<(String, String, Weight)>,
    ) -> bool {
        forall|k: int|
            #![trigger rows[k]]
            0 <= k < rows.len() ==> exists|j: int|
                #![trigger fl[j]]
                0 <= j < fl.len() && rows[k].1@ == self.name_or_empty(fl[j].0 as int)
                    && rows[k].2 == fl[j].1
    }

    /// The filtered rank rows of a ranked-list request, before sorting.
    pub open spec fn scores_filtered(
        self,
        context: Seq<char>,
        ego: Seq<char>,
        kind_str: Seq<char>,
        hide_personal: bool,
        lt: int,
        lte: bool,
        gt: int,
        gte: bool,
    ) -> Seq<(NodeId, Weight)> {
        let ctxi = find_ctx(self.contexts@, context);
        let eid = self.id_of(ego);
        let rs = match self.cached_ranks(context, eid) {
            Some(v) => v,
            None => Seq::<(NodeId, Weight)>::empty(),
        };
        self.filtered_scores(
            ctxi,
            eid,
            spec_kind_filter(kind_str).unwrap(),
            hide_personal,
            lt,
            lte,
            gt,
            gte,
            rs,
        )
    }

    /// The ranked-list query: project the cached ranks of `ego`, filter by
    /// kind and score window, optionally hide personal comment/beacon rows,
    /// sort by score magnitude descending, and slice
    /// `[index, index + count)`.  Unknown context or ego, or an invalid kind
    /// string, give an empty result.
    pub fn read_scores(
        &self,
        context: &str,
        ego: &str,
        kind_str: &str,
        hide_personal: bool,
        score_lt: Weight,
        score_lte: bool,
        score_gt: Weight,
        score_gte: bool,
        index: u32,
        count: u32,
    ) -> (r: Vec<(String, String, Weight)>)
        requires
            self.wf(),
        ensures
            (spec_kind_filter(kind_str@) is None || find_ctx(self.contexts@, context@) < 0
                || self.id_of(ego@) < 0) ==> r@.len() == 0,
            spec_kind_filter(kind_str@) is Some && find_ctx(self.contexts@, context@) >= 0
                && self.id_of(ego@) >= 0 ==> ({
                let ctxi = find_ctx(self.contexts@, context@);
                let eid = self.id_of(ego@);
                let rs = match self.cached_ranks(context@, eid) {
                    Some(v) => v,
                    None => Seq::empty(),
                };
                let fl = self.filtered_scores(
                    ctxi,
                    eid,
                    spec_kind_filter(kind_str@).unwrap(),
                    hide_personal,
                    score_lt as int,
                    score_lte,
                    score_gt as int,
                    score_gte,
                    rs,
                );
                &&& r@.len() == (if index as int >= fl.len() {
                    0int
                } else if index + count <= fl.len() {
                    count as int
                } else {
                    fl.len() - index
                })
                &&& (forall|k: int| 0 <= k < r@.len() ==> (#[trigger] r@[k]).0@ == ego@)
                &&& self.rows_from(fl, r@)
                &&& (forall|k1: int, k2: int|
                    0 <= k1 < k2 < r@.len() ==> abs_w((#[trigger] r@[k1]).2 as int) >= abs_w(
                        (#[trigger] r@[k2]).2 as int,
                    ))
            }),
            // the rows are exactly the requested window of a sorted
            // permutation of the filtered list
            spec_kind_filter(kind_str@) is Some && find_ctx(self.contexts@, context@) >= 0
                && self.id_of(ego@) >= 0 ==> exists|sw: Seq<(NodeId, Weight)>|
                #![trigger scores_window_ok(self.node_infos@, self.scores_filtered(context@, ego@, kind_str@, hide_personal, score_lt as int, score_lte, score_gt as int, score_gte), sw, index as int, r@)]
                scores_window_ok(
                    self.node_infos@,
                    self.scores_filtered(
                        context@,
                        ego@,
                        kind_str@,
                        hide_personal,
                        score_lt as int,
                        score_lte,
                        score_gt as int,
                        score_gte,
                    ),
                    sw,
                    index as int,
                    r@,
                ),
    {
        broadcast use vstd::seq_lib::group_to_multiset_ensures;

        let kf = if kind_str.is_empty() {
            NodeKind::Unknown
        } else if str_eq(kind_str, "U") {
            NodeKind::User
        } else if str_eq(kind_str, "B") {
            NodeKind::Beacon
        } else if str_eq(kind_str, "C") {
            NodeKind::Comment
        } else {
            proof {
                reveal_strlit("");
                assert(kind_str@ != ""@);
            }
            return Vec::new();
        };
        proof {
            reveal_strlit("");
            if kind_str@.len() == 0 {
                assert(kind_str@ =~= ""@);
            }
            assert(spec_kind_filter(kind_str@) == Some(kf));
        }
        let c = match self.context_index(context) {
            Some(c) => c,
            None => {
                return Vec::new();
            },
        };
        let eid = match self.find_node_id(ego) {
            Some(e) => e,
            None => {
                return Vec::new();
            },
        };
        let empty_ranks: Vec<(NodeId, Weight)> = Vec::new();
        let rs: &Vec<(NodeId, Weight)> = if eid < self.contexts[c].ranks.len() {
            match &self.contexts[c].ranks[eid] {
                Some(v) => v,
                None => &empty_ranks,
            }
        } else {
            &empty_ranks
        };
        let ghost rs_spec = rs@;
        proof {
            assert(rs_spec == match self.cached_ranks(context@, eid as int) {
                Some(v) => v,
                None => Seq::<(NodeId, Weight)>::empty(),
            });
        }
        // filter
        let mut rows: Vec<(NodeId, Weight)> = Vec::new();
        let n = rs.len();
        for i in 0..n
            invariant
                self.wf(),
                n == rs_spec.len(),
                rs@ == rs_spec,
                c < self.contexts@.len(),
                find_ctx(self.contexts@, context@) == c as int,
                eid < self.node_infos@.len(),
                rows@ == self.filtered_scores(
                    c as int,
                    eid as int,
                    kf,
                    hide_personal,
                    score_lt as int,
                    score_lte,
                    score_gt as int,
                    score_gte,
                    rs_spec.subrange(0, i as int),
                ),
        {
            let (t, w) = rs[i];
            let k = if t < self.node_infos.len() {
                self.node_infos[t].kind
            } else {
                NodeKind::Unknown
            };
            let kind_ok = match kf {
                NodeKind::Unknown => true,
                _ => kf == k,
            };
            let gt_ok = score_gt < w || (score_gte && score_gt <= w);
            let lt_ok = w < score_lt || (score_lte && w <= score_lt);
            let hide_ok = if hide_personal && (k == NodeKind::Comment || k == NodeKind::Beacon) {
                let back = self.contexts[c].graph.edge_weight(t, eid);
                back == 0
            } else {
                true
            };
            proof {
                assert(rs_spec.subrange(0, i + 1).drop_last() =~= rs_spec.subrange(0, i as int));
                assert(rs_spec.subrange(0, i + 1).last() == rs_spec[i as int]);
            }
            if kind_ok && gt_ok && lt_ok && hide_ok {
                rows.push((t, w));
                proof {
                    assert(self.row_passes(
                        c as int,
                        eid as int,
                        kf,
                        hide_personal,
                        score_lt as int,
                        score_lte,
                        score_gt as int,
                        score_gte,
                        t as int,
                        w as int,
                    ));
                }
            } else {
                proof {
                    assert(!self.row_passes(
                        c as int,
                        eid as int,
                        kf,
                        hide_personal,
                        score_lt as int,
                        score_lte,
                        score_gt as int,
                        score_gte,
                        t as int,
                        w as int,
                    ));
                }
            }
        }
        proof {
            assert(rs_spec.subrange(0, n as int) =~= rs_spec);
        }
        let ghost fl = rows@;
        // sort by magnitude, then slice
        let sorted = sort_pairs_desc(rows);
        let mut r: Vec<(String, String, Weight)> = Vec::new();
        let total = sorted.len();
        let start: usize = if (index as usize) < total {
            index as usize
        } else {
            total
        };
        let stop: usize = if total - start > (count as usize) {
            start + (count as usize)
        } else {
            total
        };
        for i in start..stop
            invariant
                self.wf(),
                total == sorted@.len(),
                sorted@.len() == fl.len(),
                sorted@.to_multiset() == fl.to_multiset(),
                start <= stop <= total,
                r@.len() == i - start,
                forall|k1: int, k2: int|
                    0 <= k1 < k2 < sorted@.len() ==> abs_w((#[trigger] sorted@[k1]).1 as int)
                        >= abs_w((#[trigger] sorted@[k2]).1 as int),
                forall|k: int| 0 <= k < r@.len() ==> (#[trigger] r@[k]).0@ == ego@,
                forall|k: int|
                    0 <= k < r@.len() ==> (#[trigger] r@[k]).2 == sorted@[k + start].1
                        && r@[k].1@ == name_of(self.node_infos@, sorted@[k + start].0 as int),
                self.rows_from(fl, r@),
        {
            let (t, w) = sorted[i];
            proof {
                sorted@.to_multiset_ensures();
                fl.to_multiset_ensures();
                assert(sorted@.contains(sorted@[i as int]));
                assert(sorted@.to_multiset().count(sorted@[i as int]) > 0);
                assert(fl.to_multiset().count(sorted@[i as int]) > 0);
                assert(fl.contains(sorted@[i as int]));
            }
            let ghost j = choose|j: int| 0 <= j < fl.len() && fl[j] == sorted@[i as int];
            let name = if t < self.node_infos.len() {
                self.node_infos[t].name.clone()
            } else {
                String::new()
            };
            let ghost rold = r@;
            r.push((ego.to_owned(), name, w));
            proof {
                assert(fl[j] == (t, w));
                assert forall|k: int|
                    #![trigger r@[k]]
                    0 <= k < r@.len() implies exists|jj: int|
                        #![trigger fl[jj]]
                        0 <= jj < fl.len() && r@[k].1@ == self.name_or_empty(fl[jj].0 as int)
                            && r@[k].2 == fl[jj].1 by {
                    if k < r@.len() - 1 {
                        assert(r@[k] == rold[k]);
                        let jj = choose|jj: int|
                            #![trigger fl[jj]]
                            0 <= jj < fl.len() && rold[k].1@ == self.name_or_empty(
                                fl[jj].0 as int,
                            ) && rold[k].2 == fl[jj].1;
                        assert(0 <= jj < fl.len() && r@[k].1@ == self.name_or_empty(
                            fl[jj].0 as int,
                        ) && r@[k].2 == fl[jj].1);
                    } else {
                        assert(r@[k].1@ == self.name_or_empty(fl[j].0 as int) && r@[k].2
                            == fl[j].1);
                        assert(0 <= j < fl.len());
                    }
                }
            }
        }
        proof {
            let ctxi2 = find_ctx(self.contexts@, context@);
            let eid2 = self.id_of(ego@);
            let rs2 = match self.cached_ranks(context@, eid2) {
                Some(v) => v,
                None => Seq::<(NodeId, Weight)>::empty(),
            };
            let fl2 = self.filtered_scores(
                ctxi2,
                eid2,
                spec_kind_filter(kind_str@).unwrap(),
                hide_personal,
                score_lt as int,
                score_lte,
                score_gt as int,
                score_gte,
                rs2,
            );
            assert(ctxi2 == c as int);
            assert(eid2 == eid as int);
            assert(rs2 == rs_spec);
            assert(fl2 == fl);
            assert(self.rows_from(fl2, r@));
            assert(self.scores_filtered(
                context@,
                ego@,
                kind_str@,
                hide_personal,
                score_lt as int,
                score_lte,
                score_gt as int,
                score_gte,
            ) == fl2);
            assert(scores_window_ok(
                self.node_infos@,
                self.scores_filtered(
                    context@,
                    ego@,
                    kind_str@,
                    hide_personal,
                    score_lt as int,
                    score_lte,
                    score_gt as int,
                    score_gte,
                ),
                sorted@,
                index as int,
                r@,
            )) by {
                assert forall|k: int| #![trigger r@[k]] 0 <= k < r@.len() implies 0 <= k
                    + index < sorted@.len() && r@[k].1@ == name_of(
                    self.node_infos@,
                    sorted@[k + index].0 as int,
                ) && r@[k].2 == sorted@[k + index].1 by {
                    assert(start == index as int);
                    assert(r@[k].2 == sorted@[k + start].1);
                    assert(r@[k].1@ == name_of(self.node_infos@, sorted@[k + start].0 as int));
                }
            }
        }
        proof {
            assert forall|k1: int, k2: int|
                0 <= k1 < k2 < r@.len() implies abs_w((#[trigger] r@[k1]).2 as int) >= abs_w(
                (#[trigger] r@[k2]).2 as int,
            ) by {
                assert(r@[k1].2 == sorted@[k1 + start].1);
                assert(r@[k2].2 == sorted@[k2 + start].1);
            }
        }
        r
    }
}


/// Every outgoing edge of `eid` appears in the listing.
pub open spec fn connected_rows_complete(
    infos: Seq<NodeInfo>,
    ctxs: Seq<ContextState>,
    ci: int,
    eid: int,
    rows: Seq<(String, String)>,
) -> bool {
    forall|d: int|
        w_of(ctxs, ci, eid, d) != 0 ==> exists|k: int|
            #![trigger rows[k]]
            0 <= k < rows.len() && rows[k].1@ == name_of(infos, d)
}

impl AugMultiGraph {

    /// All outgoing neighbour names of `ego` in a context; empty when the
    /// context or the node is unknown.
    pub fn read_connected(&mut self, context: &str, ego: &str) -> (r: Vec<(String, String)>)
        requires
            (*old(self)).wf(),
        ensures
            final(self).wf(),
            final(self).node_infos@ == old(self).node_infos@,
            final(self).contexts@ == old(self).contexts@,
            find_ctx(old(self).contexts@, context@) < 0 || (*old(self)).id_of(ego@) < 0 ==> r@.len()
                == 0,
            find_ctx(old(self).contexts@, context@) >= 0 && (*old(self)).id_of(ego@) >= 0 ==> ({
                let ci = find_ctx(old(self).contexts@, context@);
                let eid = (*old(self)).id_of(ego@);
                &&& (forall|k: int| 0 <= k < r@.len() ==> (#[trigger] r@[k]).0@ == ego@)
                &&& connected_rows_complete(
                    old(self).node_infos@,
                    old(self).contexts@,
                    ci,
                    eid,
                    r@,
                )
                &&& (exists|nb: Seq<(NodeId, Weight)>|
                    #![trigger connected_window_ok(old(self).node_infos@, old(self).contexts@, ci, eid, nb, r@)]
                    connected_window_ok(old(self).node_infos@, old(self).contexts@, ci, eid, nb, r@))
            }),
    {
        match self.context_index(context) {
            Some(_) => {},
            None => {
                return Vec::new();
            },
        }
        let src_id = match self.find_node_id(ego) {
            Some(id) => id,
            None => {
                return Vec::new();
            },
        };
        let nbrs = self.all_neighbors(context, src_id);
        let ghost ci = find_ctx(self.contexts@, context@);
        let mut r: Vec<(String, String)> = Vec::new();
        let n = nbrs.len();
        for k in 0..n
            invariant
                self.wf(),
                self.contexts@ == old(self).contexts@,
                self.node_infos@ == old(self).node_infos@,
                n == nbrs@.len(),
                find_ctx(self.contexts@, context@) == ci,
                0 <= ci,
                src_id < self.node_infos@.len(),
                forall|kk: int|
                    0 <= kk < nbrs@.len() ==> w_of(
                        self.contexts@,
                        ci,
                        src_id as int,
                        (#[trigger] nbrs@[kk]).0 as int,
                    ) == nbrs@[kk].1 && nbrs@[kk].1 != 0,
                forall|d: int|
                    w_of(self.contexts@, ci, src_id as int, d) != 0 ==> has_dst(nbrs@, d),
                r@.len() == k,
                forall|kk: int| 0 <= kk < r@.len() ==> (#[trigger] r@[kk]).0@ == ego@,
                forall|kk: int|
                    0 <= kk < k ==> (#[trigger] r@[kk]).1@ == name_of(
                        old(self).node_infos@,
                        nbrs@[kk].0 as int,
                    ),
        {
            let d = nbrs[k].0;
            let name = if d < self.node_infos.len() {
                self.node_infos[d].name.clone()
            } else {
                String::new()
            };
            r.push((ego.to_owned(), name));
        }
        proof {
            assert forall|d: int|
                w_of(old(self).contexts@, ci, src_id as int, d) != 0 implies exists|k: int|
                    #![trigger r@[k]]
                    0 <= k < r@.len() && r@[k].1@ == name_of(old(self).node_infos@, d) by {
                assert(has_dst(nbrs@, d));
                let kk = choose|kk: int| 0 <= kk < nbrs@.len() && (#[trigger] nbrs@[kk]).0 == d;
                assert(r@[kk].1@ == name_of(old(self).node_infos@, nbrs@[kk].0 as int));
            }
            assert(connected_window_ok(
                old(self).node_infos@,
                old(self).contexts@,
                ci,
                src_id as int,
                nbrs@,
                r@,
            ));
        }
        r
    }

    /// Each row of an edge listing names an actual edge of the context.
    pub open spec fn edge_rows_ok(self, ci: int, rows: Seq<(String, String, Weight)>) -> bool {
        forall|k: int|
            #![trigger rows[k]]
            0 <= k < rows.len() ==> exists|s: int, d: int|
                #![trigger w_of(self.contexts@, ci, s, d)]
                0 <= s < self.node_infos@.len() && w_of(self.contexts@, ci, s, d) == rows[k].2
                    && rows[k].2 != 0 && rows[k].0@ == self.name_or_empty(s) && rows[k].1@
                    == self.name_or_empty(d)
    }

    /// Every edge with a registered source below `upto` appears.
    pub open spec fn edge_rows_complete(
        self,
        ci: int,
        upto: int,
        rows: Seq<(String, String, Weight)>,
    ) -> bool {
        forall|s: int, d: int|
            0 <= s < upto && #[trigger] w_of(self.contexts@, ci, s, d) != 0 ==> exists|k: int|
                #![trigger rows[k]]
                0 <= k < rows.len() && rows[k].0@ == self.name_or_empty(s) && rows[k].1@
                    == self.name_or_empty(d) && rows[k].2 == w_of(self.contexts@, ci, s, d)
    }

    /// Every edge of a context as (source name, destination name, weight)
    /// rows; empty when the context is unknown.
    #[verifier::rlimit(100)]
    pub fn read_edges(&mut self, context: &str) -> (r: Vec<(String, String, Weight)>)
        requires
            (*old(self)).wf(),
        ensures
            final(self).wf(),
            final(self).node_infos@ == old(self).node_infos@,
            final(self).contexts@ == old(self).contexts@,
            find_ctx(old(self).contexts@, context@) < 0 ==> r@.len() == 0,
            find_ctx(old(self).contexts@, context@) >= 0 ==> (*old(self)).edge_rows_ok(
                find_ctx(old(self).contexts@, context@),
                r@,
            ) && (*old(self)).edge_rows_complete(
                find_ctx(old(self).contexts@, context@),
                old(self).node_infos@.len() as int,
                r@,
            ),
    {
        match self.context_index(context) {
            Some(_) => {},
            None => {
                return Vec::new();
            },
        }
        let ghost ci = find_ctx(self.contexts@, context@);
        let mut r: Vec<(String, String, Weight)> = Vec::new();
        let ghost mut ids: Seq<(int, int)> = Seq::empty();
        let n = self.node_count;
        assert(n == self.node_infos@.len());
        for src in 0..n
            invariant
                (*old(self)).wf(),
                self.wf(),
                self.contexts@ == old(self).contexts@,
                self.node_infos@ == old(self).node_infos@,
                self.node_count == old(self).node_count,
                n == self.node_infos@.len(),
                find_ctx(self.contexts@, context@) == ci,
                0 <= ci,
                (*old(self)).edge_rows_ok(ci, r@),
                (*old(self)).edge_rows_complete(ci, src as int, r@),
                ids.len() == r@.len(),
                forall|kk: int|
                    #![trigger ids[kk]]
                    0 <= kk < r@.len() ==> 0 <= ids[kk].0 < src && 0 <= ids[kk].1 < n
                        && r@[kk].0@ == name_of(self.node_infos@, ids[kk].0) && r@[kk].1@
                        == name_of(self.node_infos@, ids[kk].1),
                forall|k1: int, k2: int|
                    0 <= k1 < k2 < r@.len() ==> !((#[trigger] ids[k1]).0 == (#[trigger] ids[k2]).0
                        && ids[k1].1 == ids[k2].1),
        {
            let nbrs = self.all_neighbors(context, src);
            let src_name = self.node_infos[src].name.clone();
            let m = nbrs.len();
            let ghost rsrc = r@;
            for k in 0..m
                invariant
                    self.wf(),
                    self.contexts@ == old(self).contexts@,
                    self.node_infos@ == old(self).node_infos@,
                    self.node_count == old(self).node_count,
                    n == self.node_infos@.len(),
                    src < n,
                    find_ctx(self.contexts@, context@) == ci,
                    0 <= ci,
                    src_name@ == self.node_infos@[src as int].name@,
                    m == nbrs@.len(),
                    forall|kk: int|
                        0 <= kk < nbrs@.len() ==> w_of(
                            self.contexts@,
                            ci,
                            src as int,
                            (#[trigger] nbrs@[kk]).0 as int,
                        ) == nbrs@[kk].1 && nbrs@[kk].1 != 0,
                    forall|kx: int, ky: int|
                        0 <= kx < ky < nbrs@.len() ==> (#[trigger] nbrs@[kx]).0 != (
                        #[trigger] nbrs@[ky]).0,
                    forall|d: int|
                        w_of(self.contexts@, ci, src as int, d) != 0 ==> has_dst(nbrs@, d),
                    r@.len() == rsrc.len() + k,
                    forall|kk: int| 0 <= kk < rsrc.len() ==> (#[trigger] r@[kk]) == rsrc[kk],
                    forall|kk: int|
                        #![trigger r@[kk]]
                        rsrc.len() <= kk < r@.len() ==> r@[kk].0@ == (*old(self)).name_or_empty(
                            src as int,
                        ) && r@[kk].1@ == (*old(self)).name_or_empty(nbrs@[kk - rsrc.len()].0 as int)
                            && r@[kk].2 == nbrs@[kk - rsrc.len()].1,
                    (*old(self)).edge_rows_ok(ci, r@),
                    (*old(self)).edge_rows_complete(ci, src as int, r@),
                    ids.len() == r@.len(),
                    forall|kk: int|
                        #![trigger ids[kk]]
                        0 <= kk < rsrc.len() ==> 0 <= ids[kk].0 < src && 0 <= ids[kk].1 < n
                            && r@[kk].0@ == name_of(self.node_infos@, ids[kk].0) && r@[kk].1@
                            == name_of(self.node_infos@, ids[kk].1),
                    forall|kk: int|
                        #![trigger ids[kk]]
                        rsrc.len() <= kk < r@.len() ==> ids[kk] == (
                            src as int,
                            nbrs@[kk - rsrc.len()].0 as int,
                        ) && 0 <= ids[kk].1 < n && r@[kk].0@ == name_of(
                            self.node_infos@,
                            ids[kk].0,
                        ) && r@[kk].1@ == name_of(self.node_infos@, ids[kk].1),
                    forall|k1: int, k2: int|
                        0 <= k1 < k2 < r@.len() ==> !((#[trigger] ids[k1]).0 == (
                        #[trigger] ids[k2]).0 && ids[k1].1 == ids[k2].1),
            {
                let (d, w) = nbrs[k];
                let dst_name = if d < self.node_infos.len() {
                    self.node_infos[d].name.clone()
                } else {
                    String::new()
                };
                let ghost rold = r@;
                r.push((src_name.clone(), dst_name, w));
                proof {
                    assert(w_of(old(self).contexts@, ci, src as int, d as int) == w && w != 0);
                    // the destination is registered: only registered
                    // endpoints carry weight
                    assert((d as int) < n as int);
                    let ghost idsold = ids;
                    ids = ids.push((src as int, d as int));
                    assert(forall|kk: int|
                        0 <= kk < idsold.len() ==> (#[trigger] ids[kk]) == idsold[kk]);
                    assert forall|k1: int, k2: int|
                        0 <= k1 < k2 < r@.len() implies !((#[trigger] ids[k1]).0 == (
                    #[trigger] ids[k2]).0 && ids[k1].1 == ids[k2].1) by {
                        if k2 == r@.len() - 1 {
                            if k1 < rsrc.len() {
                                assert(ids[k1].0 < src as int);
                            } else {
                                assert(ids[k1] == (src as int, nbrs@[k1 - rsrc.len()].0 as int));
                                assert(nbrs@[k1 - rsrc.len()].0 != nbrs@[k as int].0);
                            }
                        } else {
                            assert(ids[k1] == idsold[k1] && ids[k2] == idsold[k2]);
                        }
                    }
                    assert forall|kk: int|
                        0 <= kk < rsrc.len() implies (#[trigger] r@[kk]) == rsrc[kk] by {
                        assert(r@[kk] == rold[kk]);
                    }
                    assert forall|kk: int|
                        #![trigger r@[kk]]
                        0 <= kk < r@.len() implies exists|s2: int, d2: int|
                            #![trigger w_of(old(self).contexts@, ci, s2, d2)]
                            0 <= s2 < old(self).node_infos@.len() && w_of(
                                old(self).contexts@,
                                ci,
                                s2,
                                d2,
                            ) == r@[kk].2 && r@[kk].2 != 0 && r@[kk].0@ == (*old(self)).name_or_empty(
                                s2,
                            ) && r@[kk].1@ == (*old(self)).name_or_empty(d2) by {
                        if kk < r@.len() - 1 {
                            assert(r@[kk] == rold[kk]);
                            let (s2, d2) = choose|s2: int, d2: int|
                                #![trigger w_of(old(self).contexts@, ci, s2, d2)]
                                0 <= s2 < old(self).node_infos@.len() && w_of(
                                    old(self).contexts@,
                                    ci,
                                    s2,
                                    d2,
                                ) == rold[kk].2 && rold[kk].2 != 0 && rold[kk].0@ == (*old(self)).name_or_empty(
                                    s2,
                                ) && rold[kk].1@ == (*old(self)).name_or_empty(d2);
                            assert(0 <= s2 < old(self).node_infos@.len() && w_of(
                                old(self).contexts@,
                                ci,
                                s2,
                                d2,
                            ) == r@[kk].2 && r@[kk].2 != 0 && r@[kk].0@ == (*old(self)).name_or_empty(
                                s2,
                            ) && r@[kk].1@ == (*old(self)).name_or_empty(d2));
                        } else {
                            assert(0 <= (src as int) && (src as int) < old(self).node_infos@.len() && w_of(
                                old(self).contexts@,
                                ci,
                                src as int,
                                d as int,
                            ) == r@[kk].2 && r@[kk].2 != 0 && r@[kk].0@ == (*old(self)).name_or_empty(
                                src as int,
                            ) && r@[kk].1@ == (*old(self)).name_or_empty(d as int));
                        }
                    }
                    assert forall|s2: int, d2: int|
                        0 <= s2 < src && #[trigger] w_of(old(self).contexts@, ci, s2, d2) != 0
                            implies exists|kx: int|
                            #![trigger r@[kx]]
                            0 <= kx < r@.len() && r@[kx].0@ == (*old(self)).name_or_empty(s2)
                                && r@[kx].1@ == (*old(self)).name_or_empty(d2) && r@[kx].2 == w_of(
                                old(self).contexts@,
                                ci,
                                s2,
                                d2,
                            ) by {
                        let kx = choose|kx: int|
                            #![trigger rold[kx]]
                            0 <= kx < rold.len() && rold[kx].0@ == (*old(self)).name_or_empty(s2)
                                && rold[kx].1@ == (*old(self)).name_or_empty(d2) && rold[kx].2
                                == w_of(old(self).contexts@, ci, s2, d2);
                        assert(r@[kx] == rold[kx]);
                    }
                }
            }
            proof {
                assert forall|s2: int, d2: int|
                    0 <= s2 < src + 1 && #[trigger] w_of(old(self).contexts@, ci, s2, d2) != 0
                        implies exists|kx: int|
                        #![trigger r@[kx]]
                        0 <= kx < r@.len() && r@[kx].0@ == (*old(self)).name_or_empty(s2)
                            && r@[kx].1@ == (*old(self)).name_or_empty(d2) && r@[kx].2 == w_of(
                            old(self).contexts@,
                            ci,
                            s2,
                            d2,
                        ) by {
                    if s2 == src {
                        assert(has_dst(nbrs@, d2));
                        let kk = choose|kk: int|
                            0 <= kk < nbrs@.len() && (#[trigger] nbrs@[kk]).0 == d2;
                        assert(r@[rsrc.len() + kk].0@ == (*old(self)).name_or_empty(src as int));
                        assert(r@[rsrc.len() + kk].1@ == (*old(self)).name_or_empty(
                            nbrs@[kk].0 as int,
                        ));
                        assert(r@[rsrc.len() + kk].2 == nbrs@[kk].1);
                    }
                }
            }
        }
        r
    }
}


impl AugMultiGraph {
    /// The rank rows that appear in a mutual-scores listing: positive score
    /// and a user target, in rank order.
    pub open spec fn mutual_rows(self, rs: Seq<(NodeId, Weight)>) -> Seq<(NodeId, Weight)>
        decreases rs.len(),
    {
        if rs.len() == 0 {
            Seq::empty()
        } else {
            let rest = self.mutual_rows(rs.drop_last());
            if rs.last().1 > 0 && self.kind_of(rs.last().0 as int) == NodeKind::User {
                rest.push(rs.last())
            } else {
                rest
            }
        }
    }

    /// Mutual scores: for each user in the ego's cached ranks with positive
    /// score, the score both ways.  Empty when the context or ego is
    /// unknown.
    pub fn read_mutual_scores(&self, context: &str, ego: &str) -> (r: Vec<
        (String, Weight, Weight),
    >)
        requires
            self.wf(),
        ensures
            find_ctx(self.contexts@, context@) < 0 || self.id_of(ego@) < 0 ==> r@.len() == 0,
            find_ctx(self.contexts@, context@) >= 0 && self.id_of(ego@) >= 0 ==> ({
                let eid = self.id_of(ego@);
                let rs = match self.cached_ranks(context@, eid) {
                    Some(v) => v,
                    None => Seq::empty(),
                };
                let ml = self.mutual_rows(rs);
                &&& r@.len() == ml.len()
                &&& (forall|k: int|
                    #![trigger r@[k]]
                    0 <= k < r@.len() ==> r@[k].0@ == self.name_or_empty(ml[k].0 as int)
                        && r@[k].1 == ml[k].1 && r@[k].2 as int == self.cached_score(
                        context@,
                        ml[k].0 as int,
                        eid,
                    ))
            }),
    {
        let c = match self.context_index(context) {
            Some(c) => c,
            None => {
                return Vec::new();
            },
        };
        let eid = match self.find_node_id(ego) {
            Some(e) => e,
            None => {
                return Vec::new();
            },
        };
        let empty_ranks: Vec<(NodeId, Weight)> = Vec::new();
        let rs: &Vec<(NodeId, Weight)> = if eid < self.contexts[c].ranks.len() {
            match &self.contexts[c].ranks[eid] {
                Some(v) => v,
                None => &empty_ranks,
            }
        } else {
            &empty_ranks
        };
        let ghost rs_spec = rs@;
        proof {
            assert(rs_spec == match self.cached_ranks(context@, eid as int) {
                Some(v) => v,
                None => Seq::<(NodeId, Weight)>::empty(),
            });
        }
        let mut r: Vec<(String, Weight, Weight)> = Vec::new();
        let n = rs.len();
        for i in 0..n
            invariant
                self.wf(),
                n == rs_spec.len(),
                rs@ == rs_spec,
                c < self.contexts@.len(),
                find_ctx(self.contexts@, context@) == c as int,
                eid < self.node_infos@.len(),
                r@.len() == self.mutual_rows(rs_spec.subrange(0, i as int)).len(),
                forall|k: int|
                    #![trigger r@[k]]
                    0 <= k < r@.len() ==> ({
                        let ml = self.mutual_rows(rs_spec.subrange(0, i as int));
                        r@[k].0@ == self.name_or_empty(ml[k].0 as int) && r@[k].1 == ml[k].1
                            && r@[k].2 as int == self.cached_score(
                            context@,
                            ml[k].0 as int,
                            eid as int,
                        )
                    }),
        {
            let (u, score) = rs[i];
            let uk = if u < self.node_infos.len() {
                self.node_infos[u].kind
            } else {
                NodeKind::Unknown
            };
            proof {
                assert(rs_spec.subrange(0, i + 1).drop_last() =~= rs_spec.subrange(0, i as int));
                assert(rs_spec.subrange(0, i + 1).last() == rs_spec[i as int]);
            }
            if score > 0 && uk == NodeKind::User {
                let name = self.node_infos[u].name.clone();
                let back = self.score_lookup(context, u, eid);
                let ghost mlold = self.mutual_rows(rs_spec.subrange(0, i as int));
                r.push((name, score, back));
                proof {
                    let ml = self.mutual_rows(rs_spec.subrange(0, i + 1));
                    assert(ml == mlold.push(rs_spec[i as int]));
                    assert forall|k: int| #![trigger r@[k]] 0 <= k < r@.len() implies ({
                        r@[k].0@ == self.name_or_empty(ml[k].0 as int) && r@[k].1 == ml[k].1
                            && r@[k].2 as int == self.cached_score(
                            context@,
                            ml[k].0 as int,
                            eid as int,
                        )
                    }) by {
                        if k < r@.len() - 1 {
                            assert(ml[k] == mlold[k]);
                        } else {
                            assert(ml[k] == rs_spec[i as int]);
                        }
                    }
                }
            }
        }
        proof {
            assert(rs_spec.subrange(0, n as int) =~= rs_spec);
        }
        r
    }

    /// Mark, for every beacon with a positive cached score from `src` in
    /// `context`, the (context, src) bit pattern in its mark set.
    pub fn write_mark_beacons(&mut self, context: &str, src: &str)
        requires
            old(self).wf(),
        ensures
            final(self).wf(),
            final(self).contexts@ == old(self).contexts@,
            final(self).id_of(src@) >= 0,
            // the source is registered if it was not; nothing else is added
            final(self).node_infos@.len() == (if (*old(self)).id_of(src@) >= 0 {
                old(self).node_infos@.len() as int
            } else {
                old(self).node_infos@.len() as int + 1
            }),
            // names and kinds are stable; marks of the whole final registry
            // are extended exactly for the positively scored beacons, a
            // fresh source record starting from the empty mark set
            forall|b: int|
                0 <= b < old(self).node_infos@.len() ==> (#[trigger] final(self).node_infos@[b]).name@
                    == old(self).node_infos@[b].name@ && final(self).node_infos@[b].kind == old(self).node_infos@[b].kind,
            forall|b: int|
                0 <= b < final(self).node_infos@.len() ==> (#[trigger] final(self).node_infos@[b]).marks@
                    == ({
                    let base = if b < old(self).node_infos@.len() {
                        old(self).node_infos@[b].marks@
                    } else {
                        Seq::<u64>::new(crate::bloom::BLOOM_FILTER_SIZE as nat, |i: int| 0u64)
                    };
                    if final(self).node_infos@[b].kind == NodeKind::Beacon && (*final(self)).cached_score(
                        context@,
                        (*final(self)).id_of(src@),
                        b,
                    ) > 0 {
                        crate::bloom::spec_bloom_or(
                            base,
                            crate::bloom::spec_bloom_bits(
                                context.spec_bytes(),
                                src.spec_bytes(),
                            ),
                        )
                    } else {
                        base
                    }
                }),
    {
        let src_id = self.find_or_add_node_by_name(src);
        let mark = crate::bloom::bloom_filter_bits(context, src);
        let ghost pre = *self;
        let n = self.node_count;
        assert(n == self.node_infos@.len());
        for b in 0..n
            invariant
                pre.wf(),
                n == pre.node_infos@.len(),
                self.node_infos@.len() == n,
                self.node_count == pre.node_count,
                self.contexts@ == pre.contexts@,
                self.zero_node@ == pre.zero_node@,
                src_id < n,
                mark@ == crate::bloom::spec_bloom_bits(context.spec_bytes(), src.spec_bytes()),
                forall|bb: int|
                    0 <= bb < n ==> (#[trigger] self.node_infos@[bb]).name@
                        == pre.node_infos@[bb].name@ && self.node_infos@[bb].kind
                        == pre.node_infos@[bb].kind,
                forall|bb: int|
                    b <= bb < n ==> (#[trigger] self.node_infos@[bb]).marks@
                        == pre.node_infos@[bb].marks@,
                forall|bb: int|
                    0 <= bb < b ==> (#[trigger] self.node_infos@[bb]).marks@ == (
                    if pre.node_infos@[bb].kind == NodeKind::Beacon && pre.cached_score(
                        context@,
                        src_id as int,
                        bb,
                    ) > 0 {
                        crate::bloom::spec_bloom_or(pre.node_infos@[bb].marks@, mark@)
                    } else {
                        pre.node_infos@[bb].marks@
                    }),
        {
            let is_beacon = self.node_infos[b].kind == NodeKind::Beacon;
            if is_beacon {
                let score = self.score_lookup_at(context, src_id, b);
                proof {
                    assert(self.cached_score(context@, src_id as int, b as int) == pre.cached_score(
                        context@,
                        src_id as int,
                        b as int,
                    ));
                }
                if score > 0 {
                    crate::bloom::bloom_filter_add(&mut self.node_infos[b].marks, &mark);
                }
            }
        }
        proof {
            self.lemma_wf_marks(pre);
            lemma_find_node_unique(self.node_infos@, src@, src_id as int);
            assert forall|b: int|
                0 <= b < self.node_infos@.len() implies (#[trigger] self.node_infos@[b]).marks@
                == ({
                let base = if b < old(self).node_infos@.len() {
                    old(self).node_infos@[b].marks@
                } else {
                    Seq::<u64>::new(crate::bloom::BLOOM_FILTER_SIZE as nat, |i: int| 0u64)
                };
                if self.node_infos@[b].kind == NodeKind::Beacon && self.cached_score(
                    context@,
                    self.id_of(src@),
                    b,
                ) > 0 {
                    crate::bloom::spec_bloom_or(base, mark@)
                } else {
                    base
                }
            }) by {
                if b < old(self).node_infos@.len() {
                    assert(pre.node_infos@[b] == old(self).node_infos@[b]);
                } else {
                    // the freshly registered source starts from empty marks
                    assert(pre.node_infos@[b].marks@ == Seq::<u64>::new(
                        crate::bloom::BLOOM_FILTER_SIZE as nat,
                        |i: int| 0u64,
                    ));
                }
                assert(self.node_infos@[b].kind == pre.node_infos@[b].kind);
                assert(self.cached_score(context@, src_id as int, b) == pre.cached_score(
                    context@,
                    src_id as int,
                    b,
                ));
            }
        }
    }

    /// Exec cached-score lookup by ids.
    pub(crate) fn score_lookup_at(&self, context: &str, ego: NodeId, target: NodeId) -> (r: Weight)
        requires
            self.wf(),
        ensures
            r as int == self.cached_score(context@, ego as int, target as int),
    {
        self.score_lookup(context, ego, target)
    }

    /// Registry changes that only touch mark sets preserve well-formedness.
    proof fn lemma_wf_marks(self, pre: AugMultiGraph)
        requires
            pre.wf(),
            self.contexts@ == pre.contexts@,
            self.node_count == pre.node_count,
            self.node_infos@.len() == pre.node_infos@.len(),
            forall|b: int|
                0 <= b < pre.node_infos@.len() ==> (#[trigger] self.node_infos@[b]).name@
                    == pre.node_infos@[b].name@ && self.node_infos@[b].kind
                    == pre.node_infos@[b].kind,
        ensures
            self.wf(),
    {
        assert forall|s: int, d: int|
            self.is_user(s) implies -MAX_EDGE_AMOUNT <= #[trigger] null_w(self.contexts@, s, d)
            <= MAX_EDGE_AMOUNT by {
            assert(pre.is_user(s));
        }
    }
}


impl AugMultiGraph {
    /// The beacons a discovery feed lists for `(context, src)`: ids below
    /// `n` of beacon kind, positively scored from `src`, whose mark set does
    /// not contain the (context, src) bit pattern; in id order with their
    /// scores.
    pub open spec fn unmarked_list(
        self,
        context: Seq<char>,
        sid: int,
        bits: Seq<u64>,
        n: int,
    ) -> Seq<(NodeId, Weight)>
        decreases n,
    {
        if n <= 0 {
            Seq::empty()
        } else {
            let rest = self.unmarked_list(context, sid, bits, n - 1);
            let b = n - 1;
            if 0 <= b < self.node_infos@.len() && self.node_infos@[b].kind == NodeKind::Beacon
                && self.cached_score(context, sid, b) > 0 && !crate::bloom::spec_bloom_contains(
                self.node_infos@[b].marks@,
                bits,
            ) {
                rest.push((b as NodeId, self.cached_score(context, sid, b) as Weight))
            } else {
                rest
            }
        }
    }

    /// Each returned feed row carries the name and score of some listed
    /// beacon.
    pub open spec fn beacon_rows_from(
        self,
        fl: Seq<(NodeId, Weight)>,
        rows: Seq<(String, Weight)>,
    ) -> bool {
        forall|k: int|
            #![trigger rows[k]]
            0 <= k < rows.len() ==> exists|j: int|
                #![trigger fl[j]]
                0 <= j < fl.len() && rows[k].0@ == self.name_or_empty(fl[j].0 as int)
                    && rows[k].1 == fl[j].1
    }

    /// The discovery feed: beacons positively scored from `src` whose mark
    /// sets do not contain the (context, src) pattern, sorted by descending
    /// score.  Empty when the context or source is unknown.
    pub fn read_unmarked_beacons(&self, context: &str, src: &str) -> (r: Vec<(String, Weight)>)
        requires
            self.wf(),
        ensures
            find_ctx(self.contexts@, context@) < 0 || self.id_of(src@) < 0 ==> r@.len() == 0,
            find_ctx(self.contexts@, context@) >= 0 && self.id_of(src@) >= 0 ==> ({
                let fl = self.unmarked_list(
                    context@,
                    self.id_of(src@),
                    crate::bloom::spec_bloom_bits(context.spec_bytes(), src.spec_bytes()),
                    self.node_infos@.len() as int,
                );
                &&& r@.len() == fl.len()
                &&& self.beacon_rows_from(fl, r@)
                &&& (exists|sw: Seq<(NodeId, Weight)>|
                    #![trigger beacons_window_ok(self.node_infos@, fl, sw, r@)]
                    beacons_window_ok(self.node_infos@, fl, sw, r@))
                &&& (forall|k1: int, k2: int|
                    0 <= k1 < k2 < r@.len() ==> (#[trigger] r@[k1]).1 >= (#[trigger] r@[k2]).1)
            }),
    {
        broadcast use vstd::seq_lib::group_to_multiset_ensures;

        match self.context_index(context) {
            Some(_) => {},
            None => {
                return Vec::new();
            },
        }
        let sid = match self.find_node_id(src) {
            Some(id) => id,
            None => {
                return Vec::new();
            },
        };
        let bits = crate::bloom::bloom_filter_bits(context, src);
        let mut rows: Vec<(NodeId, Weight)> = Vec::new();
        let n = self.node_count;
        assert(n == self.node_infos@.len());
        for b in 0..n
            invariant
                self.wf(),
                n == self.node_infos@.len(),
                sid < n,
                bits@ == crate::bloom::spec_bloom_bits(context.spec_bytes(), src.spec_bytes()),
                rows@ == self.unmarked_list(context@, sid as int, bits@, b as int),
                forall|k: int| 0 <= k < rows@.len() ==> (#[trigger] rows@[k]).1 > 0,
        {
            let is_beacon = self.node_infos[b].kind == NodeKind::Beacon;
            if is_beacon {
                let score = self.score_lookup_at(context, sid, b);
                if score > 0 {
                    if !crate::bloom::bloom_filter_contains_ref(&self.node_infos[b].marks, &bits) {
                        rows.push((b, score));
                    }
                }
            }
        }
        let ghost fl = rows@;
        let sorted = sort_pairs_desc(rows);
        let mut r: Vec<(String, Weight)> = Vec::new();
        let m = sorted.len();
        for i in 0..m
            invariant
                self.wf(),
                m == sorted@.len(),
                sorted@.len() == fl.len(),
                sorted@.to_multiset() == fl.to_multiset(),
                forall|k: int| 0 <= k < fl.len() ==> (#[trigger] fl[k]).1 > 0,
                forall|k1: int, k2: int|
                    0 <= k1 < k2 < sorted@.len() ==> abs_w((#[trigger] sorted@[k1]).1 as int)
                        >= abs_w((#[trigger] sorted@[k2]).1 as int),
                r@.len() == i,
                forall|k: int|
                    0 <= k < r@.len() ==> (#[trigger] r@[k]).1 == sorted@[k].1 && r@[k].0@
                        == name_of(self.node_infos@, sorted@[k].0 as int),
                forall|k: int| 0 <= k < r@.len() ==> (#[trigger] r@[k]).1 > 0,
                self.beacon_rows_from(fl, r@),
        {
            let (b, score) = sorted[i];
            proof {
                sorted@.to_multiset_ensures();
                fl.to_multiset_ensures();
                assert(sorted@.contains(sorted@[i as int]));
                assert(sorted@.to_multiset().count(sorted@[i as int]) > 0);
                assert(fl.to_multiset().count(sorted@[i as int]) > 0);
                assert(fl.contains(sorted@[i as int]));
            }
            let ghost j = choose|j: int| 0 <= j < fl.len() && fl[j] == sorted@[i as int];
            let name = if b < self.node_infos.len() {
                self.node_infos[b].name.clone()
            } else {
                String::new()
            };
            let ghost rold = r@;
            r.push((name, score));
            proof {
                assert(fl[j] == (b, score));
                assert forall|k: int|
                    #![trigger r@[k]]
                    0 <= k < r@.len() implies exists|jj: int|
                        #![trigger fl[jj]]
                        0 <= jj < fl.len() && r@[k].0@ == self.name_or_empty(fl[jj].0 as int)
                            && r@[k].1 == fl[jj].1 by {
                    if k < r@.len() - 1 {
                        assert(r@[k] == rold[k]);
                        let jj = choose|jj: int|
                            #![trigger fl[jj]]
                            0 <= jj < fl.len() && rold[k].0@ == self.name_or_empty(
                                fl[jj].0 as int,
                            ) && rold[k].1 == fl[jj].1;
                        assert(0 <= jj < fl.len() && r@[k].0@ == self.name_or_empty(
                            fl[jj].0 as int,
                        ) && r@[k].1 == fl[jj].1);
                    } else {
                        assert(r@[k].0@ == self.name_or_empty(fl[j].0 as int) && r@[k].1
                            == fl[j].1);
                    }
                }
            }
        }
        proof {
            assert forall|k1: int, k2: int|
                0 <= k1 < k2 < r@.len() implies (#[trigger] r@[k1]).1 >= (#[trigger] r@[k2]).1 by {
                assert(r@[k1].1 == sorted@[k1].1 && r@[k2].1 == sorted@[k2].1);
                assert(r@[k1].1 > 0 && r@[k2].1 > 0);
            }
            if find_ctx(self.contexts@, context@) >= 0 && self.id_of(src@) >= 0 {
                assert(beacons_window_ok(
                    self.node_infos@,
                    self.unmarked_list(
                        context@,
                        self.id_of(src@),
                        crate::bloom::spec_bloom_bits(context.spec_bytes(), src.spec_bytes()),
                        self.node_infos@.len() as int,
                    ),
                    sorted@,
                    r@,
                ));
            }
        }
        r
    }
}


/// A path-contracted weight: the fixed-point product of two hop weights,
/// negated when both hops are negative (the double-negative flip), clamped
/// into the representable band.
pub open spec fn spec_contracted(a: int, b: int) -> int {
    let prod = (if a >= 0 {
        a
    } else {
        -a
    }) * (if b >= 0 {
        b
    } else {
        -b
    }) / (crate::WEIGHT_SCALE as int);
    let sign_pos = (a >= 0 && b >= 0) || (a < 0 && b < 0);
    let raw = if sign_pos {
        prod
    } else {
        -prod
    };
    let flipped = if a < 0 && b < 0 {
        -raw
    } else {
        raw
    };
    crate::engine::clamp_norm(flipped)
}

/// Exec contraction matching `spec_contracted`.
pub fn contracted_weight(a: Weight, b: Weight) -> (r: Weight)
    requires
        -crate::MAX_NORM_WEIGHT <= a <= crate::MAX_NORM_WEIGHT,
        -crate::MAX_NORM_WEIGHT <= b <= crate::MAX_NORM_WEIGHT,
    ensures
        r as int == spec_contracted(a as int, b as int),
        -crate::MAX_NORM_WEIGHT <= r <= crate::MAX_NORM_WEIGHT,
{
    let ma: u128 = if a >= 0 {
        a as u128
    } else {
        ((-(a + 1)) as u128) + 1
    };
    let mb: u128 = if b >= 0 {
        b as u128
    } else {
        ((-(b + 1)) as u128) + 1
    };
    proof {
        assert(ma <= crate::MAX_NORM_WEIGHT as u128);
        assert(mb <= crate::MAX_NORM_WEIGHT as u128);
        assert(ma * mb <= (crate::MAX_NORM_WEIGHT as u128) * (crate::MAX_NORM_WEIGHT as u128))
            by (nonlinear_arith)
            requires ma <= crate::MAX_NORM_WEIGHT as u128 && mb <= crate::MAX_NORM_WEIGHT as u128;
        assert((crate::MAX_NORM_WEIGHT as u128) * (crate::MAX_NORM_WEIGHT as u128)
            == 1_000_000_000_000_000_000_000_000_000_000_000_000u128) by (nonlinear_arith);
    }
    let prod_u: u128 = (ma * mb) / (crate::WEIGHT_SCALE as u128);
    proof {
        assert(prod_u <= ma * mb) by {
            vstd::arithmetic::div_mod::lemma_div_is_ordered_by_denominator(
                (ma * mb) as int,
                1,
                crate::WEIGHT_SCALE as int,
            );
        }
    }
    let prod: Weight = prod_u as Weight;
    let sign_pos = (a >= 0 && b >= 0) || (a < 0 && b < 0);
    let raw: Weight = if sign_pos {
        prod
    } else {
        -prod
    };
    let flipped: Weight = if a < 0 && b < 0 {
        -raw
    } else {
        raw
    };
    proof {
        assert(prod_u as int == (ma as int) * (mb as int) / (crate::WEIGHT_SCALE as int));
        assert(ma as int == (if a as int >= 0 {
            a as int
        } else {
            -(a as int)
        }));
        assert(mb as int == (if b as int >= 0 {
            b as int
        } else {
            -(b as int)
        }));
    }
    if flipped > crate::MAX_NORM_WEIGHT {
        crate::MAX_NORM_WEIGHT
    } else if flipped < -crate::MAX_NORM_WEIGHT {
        -crate::MAX_NORM_WEIGHT
    } else {
        flipped
    }
}

/// Sort edge triples by descending weight magnitude.
pub fn sort_triples_desc(input: Vec<(NodeId, NodeId, Weight)>) -> (r: Vec<
    (NodeId, NodeId, Weight),
>)
    ensures
        r@.len() == input@.len(),
        r@.to_multiset() == input@.to_multiset(),
        forall|k1: int, k2: int|
            0 <= k1 < k2 < r@.len() ==> abs_w((#[trigger] r@[k1]).2 as int) >= abs_w(
                (#[trigger] r@[k2]).2 as int,
            ),
{
    broadcast use vstd::seq_lib::group_to_multiset_ensures;

    let mut rest = input;
    let mut out: Vec<(NodeId, NodeId, Weight)> = Vec::new();
    let ghost total = input@.to_multiset();
    proof {
        assert(out@.to_multiset().add(rest@.to_multiset()) =~= total);
    }
    while rest.len() > 0
        invariant
            out@.to_multiset().add(rest@.to_multiset()) == total,
            out@.len() + rest@.len() == input@.len(),
            forall|k1: int, k2: int|
                0 <= k1 < k2 < out@.len() ==> abs_w((#[trigger] out@[k1]).2 as int) >= abs_w(
                    (#[trigger] out@[k2]).2 as int,
                ),
            forall|k: int, i: int|
                0 <= k < out@.len() && 0 <= i < rest@.len() ==> abs_w(
                    (#[trigger] out@[k]).2 as int,
                ) >= abs_w((#[trigger] rest@[i]).2 as int),
        decreases rest@.len(),
    {
        let n = rest.len();
        let mut mi: usize = 0;
        for i in 1..n
            invariant
                n == rest@.len(),
                mi < n,
                forall|j: int|
                    0 <= j < i ==> abs_w(rest@[mi as int].2 as int) >= abs_w(
                        (#[trigger] rest@[j]).2 as int,
                    ),
        {
            if weight_abs(rest[i].2) > weight_abs(rest[mi].2) {
                mi = i;
            }
        }
        let ghost rest0 = rest@;
        let e = rest.remove(mi);
        let ghost out0 = out@;
        out.push(e);
        proof {
            assert(rest@ == rest0.remove(mi as int));
            assert(out@ == out0.push(e));
            out0.to_multiset_ensures();
            rest0.to_multiset_ensures();
            assert(out0.push(e).to_multiset() =~= out0.to_multiset().insert(e));
            assert(rest0.remove(mi as int).to_multiset() =~= rest0.to_multiset().remove(e));
            assert(rest0.contains(e));
            assert(rest0.to_multiset().count(e) > 0);
            assert(out@.to_multiset().add(rest@.to_multiset()) =~= total);
            rest0.remove_ensures(mi as int);
            assert forall|k: int, i: int|
                0 <= k < out@.len() && 0 <= i < rest@.len() implies abs_w(
                (#[trigger] out@[k]).2 as int,
            ) >= abs_w((#[trigger] rest@[i]).2 as int) by {
                let i0 = if i < mi {
                    i
                } else {
                    i + 1
                };
                assert(rest@[i] == rest0[i0]);
                if k < out0.len() {
                    assert(out@[k] == out0[k]);
                } else {
                    assert(out@[k] == e);
                }
            }
        }
    }
    proof {
        assert(rest@.to_multiset() =~= Multiset::<(NodeId, NodeId, Weight)>::empty());
        assert(out@.to_multiset().add(rest@.to_multiset()) =~= out@.to_multiset());
    }
    out
}


/// A triple row is present in an edge accumulation.
pub open spec fn has_triple(rows: Seq<(NodeId, NodeId, Weight)>, s: int, d: int, w: int) -> bool {
    exists|k: int|
        #![trigger rows[k]]
        0 <= k < rows.len() && rows[k].0 as int == s && rows[k].1 as int == d && rows[k].2 as int
            == w
}

/// A source/destination pair is present in an edge accumulation.
pub open spec fn has_pair_sd(rows: Seq<(NodeId, NodeId, Weight)>, s: int, d: int) -> bool {
    exists|k: int|
        #![trigger rows[k]]
        0 <= k < rows.len() && rows[k].0 as int == s && rows[k].1 as int == d
}

/// A present triple stays present when more rows are appended.
pub proof fn lemma_triple_push(
    rows: Seq<(NodeId, NodeId, Weight)>,
    e: (NodeId, NodeId, Weight),
    s: int,
    d: int,
    w: int,
)
    requires
        has_triple(rows, s, d, w),
    ensures
        has_triple(rows.push(e), s, d, w),
{
    let k = choose|k: int|
        #![trigger rows[k]]
        0 <= k < rows.len() && rows[k].0 as int == s && rows[k].1 as int == d && rows[k].2 as int
            == w;
    assert(rows.push(e)[k] == rows[k]);
}

/// A present pair stays present when more rows are appended.
pub proof fn lemma_pair_push(
    rows: Seq<(NodeId, NodeId, Weight)>,
    e: (NodeId, NodeId, Weight),
    s: int,
    d: int,
)
    requires
        has_pair_sd(rows, s, d),
    ensures
        has_pair_sd(rows.push(e), s, d),
{
    let k = choose|k: int|
        #![trigger rows[k]]
        0 <= k < rows.len() && rows[k].0 as int == s && rows[k].1 as int == d;
    assert(rows.push(e)[k] == rows[k]);
}

/// Completeness of the focussed-neighbourhood accumulation: every direct
/// user edge of the focus that passes the positive-only score rule
/// contributes its normalised weight, and every comment/beacon hop to a
/// user contributes its contracted weight.
pub open spec fn graph_acc_complete(
    infos: Seq<NodeInfo>,
    ctxs: Seq<ContextState>,
    context: Seq<char>,
    ego: int,
    fid: int,
    pos: bool,
    acc: Seq<(NodeId, NodeId, Weight)>,
) -> bool {
    let ci = find_ctx(ctxs, context);
    let psf = if 0 <= ci < ctxs.len() {
        ctxs[ci].graph.spec_pos_sum(fid)
    } else {
        0int
    };
    &&& (forall|d: int|
        #![trigger crate::engine::kind_at(infos, d)]
        crate::engine::kind_at(infos, d) == NodeKind::User && w_of(ctxs, ci, fid, d) != 0 && (pos
            ==> cached_score_at(ctxs, context, ego, d) > 0) ==> has_triple(
            acc,
            fid,
            d,
            crate::engine::spec_normalized(w_of(ctxs, ci, fid, d), psf),
        ))
    &&& (forall|d: int, n2: int|
        #![trigger crate::engine::kind_at(infos, d), crate::engine::kind_at(infos, n2)]
        (crate::engine::kind_at(infos, d) == NodeKind::Comment || crate::engine::kind_at(infos, d)
            == NodeKind::Beacon) && w_of(ctxs, ci, fid, d) != 0 && crate::engine::kind_at(
            infos,
            n2,
        ) == NodeKind::User && n2 != fid && w_of(ctxs, ci, d, n2) != 0 && (pos
            ==> crate::engine::spec_normalized(
            w_of(ctxs, ci, d, n2),
            if 0 <= ci < ctxs.len() {
                ctxs[ci].graph.spec_pos_sum(d)
            } else {
                0int
            },
        ) > 0) ==> has_triple(
            acc,
            fid,
            n2,
            spec_contracted(
                crate::engine::spec_normalized(w_of(ctxs, ci, fid, d), psf),
                crate::engine::spec_normalized(
                    w_of(ctxs, ci, d, n2),
                    if 0 <= ci < ctxs.len() {
                        ctxs[ci].graph.spec_pos_sum(d)
                    } else {
                        0int
                    },
                ),
            ),
        ))
}

/// Completeness survives appending more rows.
pub proof fn lemma_acc_complete_push(
    infos: Seq<NodeInfo>,
    ctxs: Seq<ContextState>,
    context: Seq<char>,
    ego: int,
    fid: int,
    pos: bool,
    acc: Seq<(NodeId, NodeId, Weight)>,
    e: (NodeId, NodeId, Weight),
)
    requires
        graph_acc_complete(infos, ctxs, context, ego, fid, pos, acc),
    ensures
        graph_acc_complete(infos, ctxs, context, ego, fid, pos, acc.push(e)),
{
    let ci = find_ctx(ctxs, context);
    let psf = if 0 <= ci < ctxs.len() {
        ctxs[ci].graph.spec_pos_sum(fid)
    } else {
        0int
    };
    assert forall|d: int|
        #![trigger crate::engine::kind_at(infos, d)]
        crate::engine::kind_at(infos, d) == NodeKind::User && w_of(ctxs, ci, fid, d) != 0 && (pos
            ==> cached_score_at(ctxs, context, ego, d) > 0) implies has_triple(
        acc.push(e),
        fid,
        d,
        crate::engine::spec_normalized(w_of(ctxs, ci, fid, d), psf),
    ) by {
        lemma_triple_push(
            acc,
            e,
            fid,
            d,
            crate::engine::spec_normalized(w_of(ctxs, ci, fid, d), psf),
        );
    }
    assert forall|d: int, n2: int|
        #![trigger crate::engine::kind_at(infos, d), crate::engine::kind_at(infos, n2)]
        (crate::engine::kind_at(infos, d) == NodeKind::Comment || crate::engine::kind_at(infos, d)
            == NodeKind::Beacon) && w_of(ctxs, ci, fid, d) != 0 && crate::engine::kind_at(
            infos,
            n2,
        ) == NodeKind::User && n2 != fid && w_of(ctxs, ci, d, n2) != 0 && (pos
            ==> crate::engine::spec_normalized(
            w_of(ctxs, ci, d, n2),
            if 0 <= ci < ctxs.len() {
                ctxs[ci].graph.spec_pos_sum(d)
            } else {
                0int
            },
        ) > 0) implies has_triple(
        acc.push(e),
        fid,
        n2,
        spec_contracted(
            crate::engine::spec_normalized(w_of(ctxs, ci, fid, d), psf),
            crate::engine::spec_normalized(
                w_of(ctxs, ci, d, n2),
                if 0 <= ci < ctxs.len() {
                    ctxs[ci].graph.spec_pos_sum(d)
                } else {
                    0int
                },
            ),
        ),
    ) by {
        lemma_triple_push(
            acc,
            e,
            fid,
            n2,
            spec_contracted(
                crate::engine::spec_normalized(w_of(ctxs, ci, fid, d), psf),
                crate::engine::spec_normalized(
                    w_of(ctxs, ci, d, n2),
                    if 0 <= ci < ctxs.len() {
                        ctxs[ci].graph.spec_pos_sum(d)
                    } else {
                        0int
                    },
                ),
            ),
        );
    }
}

/// What the focussed-subgraph query returns, relative to its unsliced
/// accumulation `acc` and the deduplicated sorted list `full`: `acc` is
/// complete for the focus neighbourhood; `full` is sorted by weight
/// magnitude descending, holds nonzero non-self rows of registered ids with
/// pairwise distinct source/destination pairs, every row backed by an
/// accumulated edge, and every valid accumulated pair is represented; the
/// result is exactly the `[index, index + count)` window of `full`, mapped
/// to names.
pub open spec fn graph_read_post(
    infos: Seq<NodeInfo>,
    ctxs: Seq<ContextState>,
    context: Seq<char>,
    ego: int,
    fid: int,
    pos: bool,
    index: int,
    count: int,
    acc: Seq<(NodeId, NodeId, Weight)>,
    full: Seq<(NodeId, NodeId, Weight)>,
    rows: Seq<(String, String, Weight)>,
) -> bool {
    &&& graph_acc_complete(infos, ctxs, context, ego, fid, pos, acc)
    &&& (forall|k1: int, k2: int|
        0 <= k1 < k2 < full.len() ==> abs_w((#[trigger] full[k1]).2 as int) >= abs_w(
            (#[trigger] full[k2]).2 as int,
        ))
    &&& (forall|k: int|
        0 <= k < full.len() ==> (#[trigger] full[k]).2 != 0 && full[k].0 != full[k].1
            && full[k].0 < infos.len() && full[k].1 < infos.len())
    &&& (forall|k1: int, k2: int|
        0 <= k1 < k2 < full.len() ==> !((#[trigger] full[k1]).0 == (#[trigger] full[k2]).0
            && full[k1].1 == full[k2].1))
    &&& (forall|k: int|
        #![trigger full[k]]
        0 <= k < full.len() ==> has_triple(acc, full[k].0 as int, full[k].1 as int, full[k].2 as int))
    &&& (forall|j: int|
        #![trigger acc[j]]
        0 <= j < acc.len() && acc[j].0 != acc[j].1 && acc[j].2 != 0 && acc[j].0 < infos.len()
            && acc[j].1 < infos.len() ==> has_pair_sd(full, acc[j].0 as int, acc[j].1 as int))
    &&& rows.len() == (if index >= full.len() {
        0int
    } else if index + count <= full.len() {
        count
    } else {
        full.len() - index
    })
    &&& (forall|k: int|
        #![trigger rows[k]]
        0 <= k < rows.len() ==> rows[k].0@ == name_of(infos, full[k + index].0 as int)
            && rows[k].1@ == name_of(infos, full[k + index].1 as int) && rows[k].2 == full[k
            + index].2)
    &&& (ego == fid ==> forall|k: int| 0 <= k < full.len() ==> (#[trigger] full[k]).0 as int == fid)
}

impl AugMultiGraph {
    /// The focussed neighbourhood of `focus` as seen by `ego`: direct user
    /// edges and comment/beacon hops contracted into user-to-user edges;
    /// when `ego` differs from `focus`, the shortest positive path from ego
    /// to focus is contracted and added.  Self-loops, zero weights and
    /// duplicate source/destination pairs are dropped; rows are sorted by
    /// weight magnitude descending and sliced to `[index, index + count)`.
    /// `graph_read_post` pins the result to the accumulated edge lists.
    #[verifier::rlimit(100)]
    pub fn read_graph(
        &mut self,
        context: &str,
        ego: &str,
        focus: &str,
        positive_only: bool,
        index: u32,
        count: u32,
    ) -> (r: Vec<(String, String, Weight)>)
        requires
            old(self).wf(),
        ensures
            final(self).wf(),
            final(self).node_infos@ == old(self).node_infos@,
            find_ctx(old(self).contexts@, context@) < 0 || (*old(self)).id_of(ego@) < 0 || (
            *old(self)).id_of(focus@) < 0 ==> r@.len() == 0 && final(self).contexts@ == old(self).contexts@,
            r@.len() <= count,
            // rows are distinct node pairs, never self-loops, with nonzero
            // weights, sorted by weight magnitude descending
            forall|k: int| 0 <= k < r@.len() ==> (#[trigger] r@[k]).2 != 0,
            forall|k: int| 0 <= k < r@.len() ==> (#[trigger] r@[k]).0@ != r@[k].1@,
            forall|k1: int, k2: int|
                0 <= k1 < k2 < r@.len() ==> !((#[trigger] r@[k1]).0@ == (#[trigger] r@[k2]).0@
                    && r@[k1].1@ == r@[k2].1@),
            forall|k1: int, k2: int|
                0 <= k1 < k2 < r@.len() ==> abs_w((#[trigger] r@[k1]).2 as int) >= abs_w(
                    (#[trigger] r@[k2]).2 as int,
                ),
            // with ego equal to focus there is no pathfinding step: every
            // row starts at the focus
            ego@ == focus@ ==> forall|k: int| 0 <= k < r@.len() ==> (#[trigger] r@[k]).0@
                == focus@,
            // the full content contract, over the unsliced accumulation and
            // the deduplicated sorted list
            find_ctx(old(self).contexts@, context@) >= 0 && (*old(self)).id_of(ego@) >= 0 && (
            *old(self)).id_of(focus@) >= 0 ==> final(self).contexts@ == old(self).contexts@
                && exists|accw: Seq<(NodeId, NodeId, Weight)>, fullw: Seq<(NodeId, NodeId, Weight)>|
                #![trigger graph_read_post(old(self).node_infos@, old(self).contexts@, context@, (*old(self)).id_of(ego@), (*old(self)).id_of(focus@), positive_only, index as int, count as int, accw, fullw, r@)]
                graph_read_post(
                    old(self).node_infos@,
                    old(self).contexts@,
                    context@,
                    (*old(self)).id_of(ego@),
                    (*old(self)).id_of(focus@),
                    positive_only,
                    index as int,
                    count as int,
                    accw,
                    fullw,
                    r@,
                ),
    {
        broadcast use vstd::seq_lib::group_to_multiset_ensures;

        let cix = match self.context_index(context) {
            Some(c) => c,
            None => {
                return Vec::new();
            },
        };
        let ego_id = match self.find_node_id(ego) {
            Some(id) => id,
            None => {
                return Vec::new();
            },
        };
        let focus_id = match self.find_node_id(focus) {
            Some(id) => id,
            None => {
                return Vec::new();
            },
        };
        let ghost n_nodes = self.node_infos@.len();
        let ghost infos0 = self.node_infos@;
        let ghost ctxs0 = self.contexts@;
        let ghost ci = cix as int;
        let ghost psf = ctxs0[ci].graph.spec_pos_sum(focus_id as int);
        let mut acc: Vec<(NodeId, NodeId, Weight)> = Vec::new();
        // the focus neighbourhood, with comment and beacon hops contracted
        let fnbrs = self.all_neighbors_normalized(context, focus_id);
        let fn_len = fnbrs.len();
        for i in 0..fn_len
            invariant
                self.wf(),
                self.node_infos@ == infos0,
                self.contexts@ == ctxs0,
                n_nodes == infos0.len(),
                find_ctx(ctxs0, context@) == ci,
                0 <= ci < ctxs0.len(),
                psf == ctxs0[ci].graph.spec_pos_sum(focus_id as int),
                fn_len == fnbrs@.len(),
                forall|kk: int|
                    0 <= kk < fnbrs@.len() ==> (#[trigger] fnbrs@[kk]).1 as int
                        == crate::engine::spec_normalized(
                        w_of(ctxs0, ci, focus_id as int, fnbrs@[kk].0 as int),
                        psf,
                    ) && w_of(ctxs0, ci, focus_id as int, fnbrs@[kk].0 as int) != 0,
                forall|dd: int|
                    w_of(ctxs0, ci, focus_id as int, dd) != 0 ==> has_dst(fnbrs@, dd),
                forall|k: int| 0 <= k < acc@.len() ==> (#[trigger] acc@[k]).0 == focus_id,
                forall|k: int|
                    0 <= k < acc@.len() ==> -crate::MAX_NORM_WEIGHT <= (#[trigger] acc@[k]).2
                        <= crate::MAX_NORM_WEIGHT,
                forall|kk: int|
                    #![trigger fnbrs@[kk]]
                    0 <= kk < i && crate::engine::kind_at(infos0, fnbrs@[kk].0 as int)
                        == NodeKind::User && (positive_only ==> cached_score_at(
                        ctxs0,
                        context@,
                        ego_id as int,
                        fnbrs@[kk].0 as int,
                    ) > 0) ==> has_triple(
                        acc@,
                        focus_id as int,
                        fnbrs@[kk].0 as int,
                        fnbrs@[kk].1 as int,
                    ),
                forall|kk: int, n2: int|
                    #![trigger fnbrs@[kk], crate::engine::kind_at(infos0, n2)]
                    0 <= kk < i && (crate::engine::kind_at(infos0, fnbrs@[kk].0 as int)
                        == NodeKind::Comment || crate::engine::kind_at(infos0, fnbrs@[kk].0 as int)
                        == NodeKind::Beacon) && crate::engine::kind_at(infos0, n2)
                        == NodeKind::User && n2 != focus_id as int && w_of(
                        ctxs0,
                        ci,
                        fnbrs@[kk].0 as int,
                        n2,
                    ) != 0 && (positive_only ==> crate::engine::spec_normalized(
                        w_of(ctxs0, ci, fnbrs@[kk].0 as int, n2),
                        ctxs0[ci].graph.spec_pos_sum(fnbrs@[kk].0 as int),
                    ) > 0) ==> has_triple(
                        acc@,
                        focus_id as int,
                        n2,
                        spec_contracted(
                            fnbrs@[kk].1 as int,
                            crate::engine::spec_normalized(
                                w_of(ctxs0, ci, fnbrs@[kk].0 as int, n2),
                                ctxs0[ci].graph.spec_pos_sum(fnbrs@[kk].0 as int),
                            ),
                        ),
                    ),
        {
            let (d, w1) = fnbrs[i];
            proof {
                assert(w1 as int == crate::engine::spec_normalized(
                    w_of(ctxs0, ci, focus_id as int, d as int),
                    psf,
                ));
                assert(-crate::MAX_NORM_WEIGHT <= w1 <= crate::MAX_NORM_WEIGHT);
            }
            let w1c: Weight = if w1 > crate::MAX_NORM_WEIGHT {
                crate::MAX_NORM_WEIGHT
            } else if w1 < -crate::MAX_NORM_WEIGHT {
                -crate::MAX_NORM_WEIGHT
            } else {
                w1
            };
            let dk = if d < self.node_infos.len() {
                self.node_infos[d].kind
            } else {
                NodeKind::Unknown
            };
            if dk == NodeKind::User {
                let keep = if positive_only {
                    let score = self.score_lookup(context, ego_id, d);
                    score > 0
                } else {
                    true
                };
                let ghost accold = acc@;
                if keep {
                    acc.push((focus_id, d, w1c));
                }
                proof {
                    assert forall|kk: int|
                        #![trigger fnbrs@[kk]]
                        0 <= kk < i + 1 && crate::engine::kind_at(infos0, fnbrs@[kk].0 as int)
                            == NodeKind::User && (positive_only ==> cached_score_at(
                            ctxs0,
                            context@,
                            ego_id as int,
                            fnbrs@[kk].0 as int,
                        ) > 0) implies has_triple(
                        acc@,
                        focus_id as int,
                        fnbrs@[kk].0 as int,
                        fnbrs@[kk].1 as int,
                    ) by {
                        if kk < i {
                            assert(has_triple(
                                accold,
                                focus_id as int,
                                fnbrs@[kk].0 as int,
                                fnbrs@[kk].1 as int,
                            ));
                            if keep {
                                lemma_triple_push(
                                    accold,
                                    (focus_id, d, w1c),
                                    focus_id as int,
                                    fnbrs@[kk].0 as int,
                                    fnbrs@[kk].1 as int,
                                );
                            } else {
                                assert(acc@ == accold);
                            }
                        } else {
                            assert(keep);
                            assert(acc@[acc@.len() - 1] == (focus_id, d, w1c));
                        }
                    }
                    assert forall|kk: int, n2: int|
                        #![trigger fnbrs@[kk], crate::engine::kind_at(infos0, n2)]
                        0 <= kk < i + 1 && (crate::engine::kind_at(infos0, fnbrs@[kk].0 as int)
                            == NodeKind::Comment || crate::engine::kind_at(
                            infos0,
                            fnbrs@[kk].0 as int,
                        ) == NodeKind::Beacon) && crate::engine::kind_at(infos0, n2)
                            == NodeKind::User && n2 != focus_id as int && w_of(
                            ctxs0,
                            ci,
                            fnbrs@[kk].0 as int,
                            n2,
                        ) != 0 && (positive_only ==> crate::engine::spec_normalized(
                            w_of(ctxs0, ci, fnbrs@[kk].0 as int, n2),
                            ctxs0[ci].graph.spec_pos_sum(fnbrs@[kk].0 as int),
                        ) > 0) implies has_triple(
                        acc@,
                        focus_id as int,
                        n2,
                        spec_contracted(
                            fnbrs@[kk].1 as int,
                            crate::engine::spec_normalized(
                                w_of(ctxs0, ci, fnbrs@[kk].0 as int, n2),
                                ctxs0[ci].graph.spec_pos_sum(fnbrs@[kk].0 as int),
                            ),
                        ),
                    ) by {
                        assert(kk < i);
                        assert(has_triple(
                            accold,
                            focus_id as int,
                            n2,
                            spec_contracted(
                                fnbrs@[kk].1 as int,
                                crate::engine::spec_normalized(
                                    w_of(ctxs0, ci, fnbrs@[kk].0 as int, n2),
                                    ctxs0[ci].graph.spec_pos_sum(fnbrs@[kk].0 as int),
                                ),
                            ),
                        ));
                        if keep {
                            lemma_triple_push(
                                accold,
                                (focus_id, d, w1c),
                                focus_id as int,
                                n2,
                                spec_contracted(
                                    fnbrs@[kk].1 as int,
                                    crate::engine::spec_normalized(
                                        w_of(ctxs0, ci, fnbrs@[kk].0 as int, n2),
                                        ctxs0[ci].graph.spec_pos_sum(fnbrs@[kk].0 as int),
                                    ),
                                ),
                            );
                        } else {
                            assert(acc@ == accold);
                        }
                    }
                }
            } else if dk == NodeKind::Comment || dk == NodeKind::Beacon {
                let ghost psd = ctxs0[ci].graph.spec_pos_sum(d as int);
                let dnbrs = self.all_neighbors_normalized(context, d);
                let dn_len = dnbrs.len();
                for j in 0..dn_len
                    invariant
                        self.wf(),
                        self.node_infos@ == infos0,
                        self.contexts@ == ctxs0,
                        n_nodes == infos0.len(),
                        find_ctx(ctxs0, context@) == ci,
                        0 <= ci < ctxs0.len(),
                        psf == ctxs0[ci].graph.spec_pos_sum(focus_id as int),
                        psd == ctxs0[ci].graph.spec_pos_sum(d as int),
                        i < fnbrs@.len(),
                        fnbrs@[i as int].0 == d,
                        fnbrs@[i as int].1 == w1c,
                        w1c as int == crate::engine::spec_normalized(
                            w_of(ctxs0, ci, focus_id as int, d as int),
                            psf,
                        ),
                        crate::engine::kind_at(infos0, d as int) == dk,
                        dk == NodeKind::Comment || dk == NodeKind::Beacon,
                        fn_len == fnbrs@.len(),
                        forall|kk: int|
                            0 <= kk < fnbrs@.len() ==> (#[trigger] fnbrs@[kk]).1 as int
                                == crate::engine::spec_normalized(
                                w_of(ctxs0, ci, focus_id as int, fnbrs@[kk].0 as int),
                                psf,
                            ) && w_of(ctxs0, ci, focus_id as int, fnbrs@[kk].0 as int) != 0,
                        forall|dd: int|
                            w_of(ctxs0, ci, focus_id as int, dd) != 0 ==> has_dst(fnbrs@, dd),
                        dn_len == dnbrs@.len(),
                        forall|jj: int|
                            0 <= jj < dnbrs@.len() ==> (#[trigger] dnbrs@[jj]).1 as int
                                == crate::engine::spec_normalized(
                                w_of(ctxs0, ci, d as int, dnbrs@[jj].0 as int),
                                psd,
                            ) && w_of(ctxs0, ci, d as int, dnbrs@[jj].0 as int) != 0,
                        forall|dd: int| w_of(ctxs0, ci, d as int, dd) != 0 ==> has_dst(dnbrs@, dd),
                        forall|k: int| 0 <= k < acc@.len() ==> (#[trigger] acc@[k]).0 == focus_id,
                        forall|k: int|
                            0 <= k < acc@.len() ==> -crate::MAX_NORM_WEIGHT <= (
                            #[trigger] acc@[k]).2 <= crate::MAX_NORM_WEIGHT,
                        forall|kk: int|
                            #![trigger fnbrs@[kk]]
                            0 <= kk < i && crate::engine::kind_at(infos0, fnbrs@[kk].0 as int)
                                == NodeKind::User && (positive_only ==> cached_score_at(
                                ctxs0,
                                context@,
                                ego_id as int,
                                fnbrs@[kk].0 as int,
                            ) > 0) ==> has_triple(
                                acc@,
                                focus_id as int,
                                fnbrs@[kk].0 as int,
                                fnbrs@[kk].1 as int,
                            ),
                        forall|kk: int, n2: int|
                            #![trigger fnbrs@[kk], crate::engine::kind_at(infos0, n2)]
                            0 <= kk < i && (crate::engine::kind_at(infos0, fnbrs@[kk].0 as int)
                                == NodeKind::Comment || crate::engine::kind_at(
                                infos0,
                                fnbrs@[kk].0 as int,
                            ) == NodeKind::Beacon) && crate::engine::kind_at(infos0, n2)
                                == NodeKind::User && n2 != focus_id as int && w_of(
                                ctxs0,
                                ci,
                                fnbrs@[kk].0 as int,
                                n2,
                            ) != 0 && (positive_only ==> crate::engine::spec_normalized(
                                w_of(ctxs0, ci, fnbrs@[kk].0 as int, n2),
                                ctxs0[ci].graph.spec_pos_sum(fnbrs@[kk].0 as int),
                            ) > 0) ==> has_triple(
                                acc@,
                                focus_id as int,
                                n2,
                                spec_contracted(
                                    fnbrs@[kk].1 as int,
                                    crate::engine::spec_normalized(
                                        w_of(ctxs0, ci, fnbrs@[kk].0 as int, n2),
                                        ctxs0[ci].graph.spec_pos_sum(fnbrs@[kk].0 as int),
                                    ),
                                ),
                            ),
                        forall|jj: int|
                            #![trigger dnbrs@[jj]]
                            0 <= jj < j && crate::engine::kind_at(infos0, dnbrs@[jj].0 as int)
                                == NodeKind::User && dnbrs@[jj].0 != focus_id && (positive_only
                                ==> dnbrs@[jj].1 > 0) ==> has_triple(
                                acc@,
                                focus_id as int,
                                dnbrs@[jj].0 as int,
                                spec_contracted(w1c as int, dnbrs@[jj].1 as int),
                            ),
                {
                    let (n2, w2) = dnbrs[j];
                    proof {
                        assert(w2 as int == crate::engine::spec_normalized(
                            w_of(ctxs0, ci, d as int, n2 as int),
                            psd,
                        ));
                        assert(-crate::MAX_NORM_WEIGHT <= w2 <= crate::MAX_NORM_WEIGHT);
                    }
                    let w2c: Weight = if w2 > crate::MAX_NORM_WEIGHT {
                        crate::MAX_NORM_WEIGHT
                    } else if w2 < -crate::MAX_NORM_WEIGHT {
                        -crate::MAX_NORM_WEIGHT
                    } else {
                        w2
                    };
                    let skip = (positive_only && w2c <= 0) || n2 == focus_id;
                    let ghost accold = acc@;
                    let mut did_push = false;
                    let mut pushed_val: Weight = 0;
                    if !skip {
                        let n2k = if n2 < self.node_infos.len() {
                            self.node_infos[n2].kind
                        } else {
                            NodeKind::Unknown
                        };
                        if n2k == NodeKind::User {
                            let w = contracted_weight(w1c, w2c);
                            acc.push((focus_id, n2, w));
                            did_push = true;
                            pushed_val = w;
                        }
                    }
                    proof {
                        assert forall|kk: int|
                            #![trigger fnbrs@[kk]]
                            0 <= kk < i && crate::engine::kind_at(infos0, fnbrs@[kk].0 as int)
                                == NodeKind::User && (positive_only ==> cached_score_at(
                                ctxs0,
                                context@,
                                ego_id as int,
                                fnbrs@[kk].0 as int,
                            ) > 0) implies has_triple(
                            acc@,
                            focus_id as int,
                            fnbrs@[kk].0 as int,
                            fnbrs@[kk].1 as int,
                        ) by {
                            assert(has_triple(
                                accold,
                                focus_id as int,
                                fnbrs@[kk].0 as int,
                                fnbrs@[kk].1 as int,
                            ));
                            if did_push {
                                lemma_triple_push(
                                    accold,
                                    (focus_id, n2, pushed_val),
                                    focus_id as int,
                                    fnbrs@[kk].0 as int,
                                    fnbrs@[kk].1 as int,
                                );
                            } else {
                                assert(acc@ == accold);
                            }
                        }
                        assert forall|kk: int, nn: int|
                            #![trigger fnbrs@[kk], crate::engine::kind_at(infos0, nn)]
                            0 <= kk < i && (crate::engine::kind_at(infos0, fnbrs@[kk].0 as int)
                                == NodeKind::Comment || crate::engine::kind_at(
                                infos0,
                                fnbrs@[kk].0 as int,
                            ) == NodeKind::Beacon) && crate::engine::kind_at(infos0, nn)
                                == NodeKind::User && nn != focus_id as int && w_of(
                                ctxs0,
                                ci,
                                fnbrs@[kk].0 as int,
                                nn,
                            ) != 0 && (positive_only ==> crate::engine::spec_normalized(
                                w_of(ctxs0, ci, fnbrs@[kk].0 as int, nn),
                                ctxs0[ci].graph.spec_pos_sum(fnbrs@[kk].0 as int),
                            ) > 0) implies has_triple(
                            acc@,
                            focus_id as int,
                            nn,
                            spec_contracted(
                                fnbrs@[kk].1 as int,
                                crate::engine::spec_normalized(
                                    w_of(ctxs0, ci, fnbrs@[kk].0 as int, nn),
                                    ctxs0[ci].graph.spec_pos_sum(fnbrs@[kk].0 as int),
                                ),
                            ),
                        ) by {
                            assert(has_triple(
                                accold,
                                focus_id as int,
                                nn,
                                spec_contracted(
                                    fnbrs@[kk].1 as int,
                                    crate::engine::spec_normalized(
                                        w_of(ctxs0, ci, fnbrs@[kk].0 as int, nn),
                                        ctxs0[ci].graph.spec_pos_sum(fnbrs@[kk].0 as int),
                                    ),
                                ),
                            ));
                            if did_push {
                                lemma_triple_push(
                                    accold,
                                    (focus_id, n2, pushed_val),
                                    focus_id as int,
                                    nn,
                                    spec_contracted(
                                        fnbrs@[kk].1 as int,
                                        crate::engine::spec_normalized(
                                            w_of(ctxs0, ci, fnbrs@[kk].0 as int, nn),
                                            ctxs0[ci].graph.spec_pos_sum(fnbrs@[kk].0 as int),
                                        ),
                                    ),
                                );
                            } else {
                                assert(acc@ == accold);
                            }
                        }
                        assert forall|jj: int|
                            #![trigger dnbrs@[jj]]
                            0 <= jj < j + 1 && crate::engine::kind_at(infos0, dnbrs@[jj].0 as int)
                                == NodeKind::User && dnbrs@[jj].0 != focus_id && (positive_only
                                ==> dnbrs@[jj].1 > 0) implies has_triple(
                            acc@,
                            focus_id as int,
                            dnbrs@[jj].0 as int,
                            spec_contracted(w1c as int, dnbrs@[jj].1 as int),
                        ) by {
                            if jj < j {
                                assert(has_triple(
                                    accold,
                                    focus_id as int,
                                    dnbrs@[jj].0 as int,
                                    spec_contracted(w1c as int, dnbrs@[jj].1 as int),
                                ));
                                if did_push {
                                    lemma_triple_push(
                                        accold,
                                        (focus_id, n2, pushed_val),
                                        focus_id as int,
                                        dnbrs@[jj].0 as int,
                                        spec_contracted(w1c as int, dnbrs@[jj].1 as int),
                                    );
                                } else {
                                    assert(acc@ == accold);
                                }
                            } else {
                                // this iteration's entry was pushed
                                assert(dnbrs@[jj].0 == n2);
                                assert(w2c == w2);
                                assert(did_push);
                                assert(pushed_val as int == spec_contracted(
                                    w1c as int,
                                    w2 as int,
                                ));
                                assert(acc@[acc@.len() - 1] == (focus_id, n2, pushed_val));
                            }
                        }
                    }
                }
                proof {
                    // this comment/beacon neighbour is now fully covered
                    assert forall|nn: int|
                        crate::engine::kind_at(infos0, nn) == NodeKind::User && nn
                            != focus_id as int && w_of(ctxs0, ci, d as int, nn) != 0 && (
                        positive_only ==> crate::engine::spec_normalized(
                            w_of(ctxs0, ci, d as int, nn),
                            psd,
                        ) > 0) implies has_triple(
                        acc@,
                        focus_id as int,
                        nn,
                        spec_contracted(
                            w1c as int,
                            crate::engine::spec_normalized(w_of(ctxs0, ci, d as int, nn), psd),
                        ),
                    ) by {
                        assert(has_dst(dnbrs@, nn));
                        let jj = choose|jj: int|
                            0 <= jj < dnbrs@.len() && (#[trigger] dnbrs@[jj]).0 == nn;
                        assert(dnbrs@[jj].1 as int == crate::engine::spec_normalized(
                            w_of(ctxs0, ci, d as int, nn),
                            psd,
                        ));
                    }
                }
            }
        }
        let ghost acc_a = acc@;
        proof {
            // the accumulation is complete for the focus neighbourhood
            assert forall|dd: int|
                #![trigger crate::engine::kind_at(infos0, dd)]
                crate::engine::kind_at(infos0, dd) == NodeKind::User && w_of(
                    ctxs0,
                    ci,
                    focus_id as int,
                    dd,
                ) != 0 && (positive_only ==> cached_score_at(ctxs0, context@, ego_id as int, dd)
                    > 0) implies has_triple(
                acc_a,
                focus_id as int,
                dd,
                crate::engine::spec_normalized(w_of(ctxs0, ci, focus_id as int, dd), psf),
            ) by {
                assert(has_dst(fnbrs@, dd));
                let kk = choose|kk: int| 0 <= kk < fnbrs@.len() && (#[trigger] fnbrs@[kk]).0 == dd;
                assert(fnbrs@[kk].1 as int == crate::engine::spec_normalized(
                    w_of(ctxs0, ci, focus_id as int, dd),
                    psf,
                ));
            }
            assert forall|dd: int, nn: int|
                #![trigger crate::engine::kind_at(infos0, dd), crate::engine::kind_at(infos0, nn)]
                (crate::engine::kind_at(infos0, dd) == NodeKind::Comment
                    || crate::engine::kind_at(infos0, dd) == NodeKind::Beacon) && w_of(
                    ctxs0,
                    ci,
                    focus_id as int,
                    dd,
                ) != 0 && crate::engine::kind_at(infos0, nn) == NodeKind::User && nn
                    != focus_id as int && w_of(ctxs0, ci, dd, nn) != 0 && (positive_only
                    ==> crate::engine::spec_normalized(
                    w_of(ctxs0, ci, dd, nn),
                    ctxs0[ci].graph.spec_pos_sum(dd),
                ) > 0) implies has_triple(
                acc_a,
                focus_id as int,
                nn,
                spec_contracted(
                    crate::engine::spec_normalized(w_of(ctxs0, ci, focus_id as int, dd), psf),
                    crate::engine::spec_normalized(
                        w_of(ctxs0, ci, dd, nn),
                        ctxs0[ci].graph.spec_pos_sum(dd),
                    ),
                ),
            ) by {
                assert(has_dst(fnbrs@, dd));
                let kk = choose|kk: int| 0 <= kk < fnbrs@.len() && (#[trigger] fnbrs@[kk]).0 == dd;
                assert(fnbrs@[kk].1 as int == crate::engine::spec_normalized(
                    w_of(ctxs0, ci, focus_id as int, dd),
                    psf,
                ));
            }
            assert(graph_acc_complete(
                infos0,
                ctxs0,
                context@,
                ego_id as int,
                focus_id as int,
                positive_only,
                acc_a,
            ));
        }
        // the ego-to-focus shortest path over positive edges, contracted
        if ego_id != focus_id {
            let mut open: Vec<crate::astar::SearchNode> = Vec::new();
            let mut closed: Vec<crate::astar::SearchNode> = Vec::new();
            let mut i0: usize = 0;
            while i0 < 1024
                invariant
                    open@.len() == i0,
                    closed@.len() == i0,
                    i0 <= 1024,
                decreases 1024 - i0,
            {
                open.push(crate::astar::SearchNode::default());
                closed.push(crate::astar::SearchNode::default());
                i0 = i0 + 1;
            }
            let mut state = crate::astar::init(&mut open, ego_id, focus_id, 0);
            let mut neighbor: Option<crate::astar::Link> = None;
            let mut finished = false;
            let mut steps: usize = 0;
            while steps < crate::ASTAR_MAX_ITERATIONS && !finished
                invariant
                    self.wf(),
                    self.node_infos@ == infos0,
                    self.contexts@ == ctxs0,
                    n_nodes == infos0.len(),
                    find_ctx(ctxs0, context@) == ci,
                    0 <= ci < ctxs0.len(),
                    crate::astar::wf_astar(open@, closed@, state),
                    open@.len() > 0,
                    steps <= crate::ASTAR_MAX_ITERATIONS,
                decreases crate::ASTAR_MAX_ITERATIONS - steps,
            {
                steps = steps + 1;
                let status = crate::astar::iteration(&mut open, &mut closed, &mut state, neighbor);
                match status {
                    crate::astar::Status::Neighbor(rq) => {
                        let nb = self.all_neighbors(context, rq.node);
                        if rq.index < nb.len() {
                            let (nn, nw) = nb[rq.index];
                            if nw > 0 {
                                let ps = match self.context_index(context) {
                                    Some(c) => self.contexts[c].graph.pos_sum_of(rq.node),
                                    None => 0,
                                };
                                let psn = if ps >= 0 {
                                    ps
                                } else {
                                    0
                                };
                                proof {
                                    self.contexts@[ci].graph.lemma_weight_bounded(
                                        rq.node as int,
                                        nn as int,
                                    );
                                }
                                let nwc: Weight = if nw > crate::MAX_STORED_WEIGHT {
                                    crate::MAX_STORED_WEIGHT
                                } else if nw < -crate::MAX_STORED_WEIGHT {
                                    -crate::MAX_STORED_WEIGHT
                                } else {
                                    nw
                                };
                                let nwn = crate::engine::normalized_weight(nwc, psn);
                                let cost: Weight = if nwn <= 0 {
                                    1_000_000 * crate::WEIGHT_SCALE
                                } else {
                                    (((crate::WEIGHT_SCALE as u128) * (
                                    crate::WEIGHT_SCALE as u128)) / (nwn as u128)) as Weight
                                };
                                neighbor = Some(
                                    crate::astar::Link {
                                        neighbor: nn,
                                        exact_distance: cost,
                                        estimate: 0,
                                    },
                                );
                            } else {
                                neighbor = None;
                            }
                        } else {
                            neighbor = None;
                        }
                    },
                    crate::astar::Status::OutOfMemory => {
                        let cur = open.len();
                        let grow = if cur < 65536 {
                            cur
                        } else {
                            0
                        };
                        let mut g: usize = 0;
                        while g < grow
                            invariant
                                open@.len() == cur + g,
                                closed@.len() >= state.num_closed,
                                g <= grow,
                                crate::astar::wf_astar(open@, closed@, state),
                            decreases grow - g,
                        {
                            open.push(crate::astar::SearchNode::default());
                            closed.push(crate::astar::SearchNode::default());
                            g = g + 1;
                        }
                        neighbor = None;
                    },
                    crate::astar::Status::Success => {
                        finished = true;
                    },
                    crate::astar::Status::Fail => {
                        finished = true;
                    },
                    crate::astar::Status::Progress => {
                        neighbor = None;
                    },
                }
            }
            // reconstruct and contract the path
            let mut out: Vec<NodeId> = Vec::new();
            let mut oi: usize = 0;
            let oc = state.num_closed;
            while oi < oc
                invariant
                    out@.len() == oi,
                    oi <= oc,
                decreases oc - oi,
            {
                out.push(0);
                oi = oi + 1;
            }
            let plen = crate::astar::path(&closed, &state, &mut out);
            if plen >= 2 {
                let mut k: usize = 0;
                while k < plen - 1
                    invariant
                        self.wf(),
                        self.node_infos@ == infos0,
                        self.contexts@ == ctxs0,
                        n_nodes == infos0.len(),
                        find_ctx(ctxs0, context@) == ci,
                        0 <= ci < ctxs0.len(),
                        plen <= out@.len(),
                        plen >= 2,
                        forall|kk: int|
                            0 <= kk < acc@.len() ==> -crate::MAX_NORM_WEIGHT <= (
                            #[trigger] acc@[kk]).2 <= crate::MAX_NORM_WEIGHT,
                        graph_acc_complete(
                            infos0,
                            ctxs0,
                            context@,
                            ego_id as int,
                            focus_id as int,
                            positive_only,
                            acc@,
                        ),
                    decreases plen - 1 - k,
                {
                    let a = out[k];
                    let b = out[k + 1];
                    let ak = if a < self.node_infos.len() {
                        self.node_infos[a].kind
                    } else {
                        NodeKind::Unknown
                    };
                    let bk = if b < self.node_infos.len() {
                        self.node_infos[b].kind
                    } else {
                        NodeKind::Unknown
                    };
                    let w_ab = self.edge_weight_normalized(context, a, b);
                    let ghost accold = acc@;
                    if k + 2 == plen {
                        if ak == NodeKind::User {
                            acc.push((a, b, w_ab));
                            proof {
                                lemma_acc_complete_push(
                                    infos0,
                                    ctxs0,
                                    context@,
                                    ego_id as int,
                                    focus_id as int,
                                    positive_only,
                                    accold,
                                    (a, b, w_ab),
                                );
                            }
                        }
                    } else if bk != NodeKind::User {
                        let c = out[k + 2];
                        let w_bc = self.edge_weight_normalized(context, b, c);
                        let w_ac = contracted_weight(w_ab, w_bc);
                        acc.push((a, c, w_ac));
                        proof {
                            lemma_acc_complete_push(
                                infos0,
                                ctxs0,
                                context@,
                                ego_id as int,
                                focus_id as int,
                                positive_only,
                                accold,
                                (a, c, w_ac),
                            );
                        }
                    } else if ak == NodeKind::User {
                        acc.push((a, b, w_ab));
                        proof {
                            lemma_acc_complete_push(
                                infos0,
                                ctxs0,
                                context@,
                                ego_id as int,
                                focus_id as int,
                                positive_only,
                                accold,
                                (a, b, w_ab),
                            );
                        }
                    }
                    k = k + 1;
                }
            }
        }
        // sort, then drop self-loops, zero weights, unregistered endpoints
        // and duplicate pairs, keeping the first (heaviest) of each pair
        let sorted = sort_triples_desc(acc);
        let ghost acc_spec = acc@;
        let mut dedup: Vec<(NodeId, NodeId, Weight)> = Vec::new();
        let sl = sorted.len();
        let ghost mut order: Seq<int> = Seq::empty();
        for i in 0..sl
            invariant
                self.wf(),
                self.node_infos@ == infos0,
                self.contexts@ == ctxs0,
                n_nodes == infos0.len(),
                sl == sorted@.len(),
                sorted@.to_multiset() == acc_spec.to_multiset(),
                forall|k1: int, k2: int|
                    0 <= k1 < k2 < sorted@.len() ==> abs_w((#[trigger] sorted@[k1]).2 as int)
                        >= abs_w((#[trigger] sorted@[k2]).2 as int),
                order.len() == dedup@.len(),
                forall|k: int|
                    0 <= k < dedup@.len() ==> 0 <= #[trigger] order[k] < i && dedup@[k]
                        == sorted@[order[k]],
                forall|k1: int, k2: int| 0 <= k1 < k2 < dedup@.len() ==> order[k1] < order[k2],
                forall|k: int|
                    0 <= k < dedup@.len() ==> (#[trigger] dedup@[k]).2 != 0 && dedup@[k].0
                        != dedup@[k].1 && dedup@[k].0 < n_nodes && dedup@[k].1 < n_nodes,
                forall|k1: int, k2: int|
                    0 <= k1 < k2 < dedup@.len() ==> !((#[trigger] dedup@[k1]).0 == (
                    #[trigger] dedup@[k2]).0 && dedup@[k1].1 == dedup@[k2].1),
                forall|k: int|
                    (forall|j: int|
                        0 <= j < acc_spec.len() ==> (#[trigger] acc_spec[j]).0 == focus_id)
                        && 0 <= k < dedup@.len() ==> (#[trigger] dedup@[k]).0 == focus_id,
                forall|jj: int|
                    #![trigger sorted@[jj]]
                    0 <= jj < i && sorted@[jj].0 != sorted@[jj].1 && sorted@[jj].2 != 0
                        && sorted@[jj].0 < n_nodes && sorted@[jj].1 < n_nodes ==> has_pair_sd(
                        dedup@,
                        sorted@[jj].0 as int,
                        sorted@[jj].1 as int,
                    ),
        {
            let (s, d, w) = sorted[i];
            proof {
                sorted@.to_multiset_ensures();
                acc_spec.to_multiset_ensures();
                assert(sorted@.contains(sorted@[i as int]));
                assert(sorted@.to_multiset().count(sorted@[i as int]) > 0);
                assert(acc_spec.to_multiset().count(sorted@[i as int]) > 0);
                assert(acc_spec.contains(sorted@[i as int]));
            }
            let ghost dentry = dedup@;
            let mut matched = false;
            if s != d && w != 0 && s < self.node_count && d < self.node_count {
                let mut seen = false;
                let dl = dedup.len();
                for t in 0..dl
                    invariant
                        dl == dedup@.len(),
                        seen ==> exists|t0: int|
                            0 <= t0 < dedup@.len() && (#[trigger] dedup@[t0]).0 == s
                                && dedup@[t0].1 == d,
                        !seen ==> forall|t0: int|
                            0 <= t0 < t ==> !((#[trigger] dedup@[t0]).0 == s && dedup@[t0].1
                                == d),
                {
                    if dedup[t].0 == s && dedup[t].1 == d {
                        seen = true;
                    }
                }
                if !seen {
                    let ghost dold = dedup@;
                    dedup.push((s, d, w));
                    proof {
                        order = order.push(i as int);
                        assert(forall|k: int|
                            0 <= k < dold.len() ==> (#[trigger] dedup@[k]) == dold[k]);
                        assert forall|k: int|
                            (forall|j: int|
                                0 <= j < acc_spec.len() ==> (#[trigger] acc_spec[j]).0
                                    == focus_id) && 0 <= k < dedup@.len() implies (
                        #[trigger] dedup@[k]).0 == focus_id by {
                            if k == dedup@.len() - 1 {
                                let j0 = choose|j0: int|
                                    0 <= j0 < acc_spec.len() && acc_spec[j0] == sorted@[i as int];
                                assert(acc_spec[j0].0 == focus_id);
                            }
                        }
                    }
                }
            }
            proof {
                assert forall|jj: int|
                    #![trigger sorted@[jj]]
                    0 <= jj < i + 1 && sorted@[jj].0 != sorted@[jj].1 && sorted@[jj].2 != 0
                        && sorted@[jj].0 < n_nodes && sorted@[jj].1 < n_nodes implies has_pair_sd(
                    dedup@,
                    sorted@[jj].0 as int,
                    sorted@[jj].1 as int,
                ) by {
                    if jj < i {
                        assert(has_pair_sd(dentry, sorted@[jj].0 as int, sorted@[jj].1 as int));
                        if dedup@.len() > dentry.len() {
                            lemma_pair_push(
                                dentry,
                                dedup@[dedup@.len() - 1],
                                sorted@[jj].0 as int,
                                sorted@[jj].1 as int,
                            );
                            assert(dedup@ == dentry.push(dedup@[dedup@.len() - 1]));
                        } else {
                            assert(dedup@ == dentry);
                        }
                    } else {
                        // this iteration's entry: either freshly pushed or
                        // its pair was already present
                        assert(sorted@[jj] == (s, d, w));
                        if exists|t0: int|
                            0 <= t0 < dentry.len() && (#[trigger] dentry[t0]).0 == s
                                && dentry[t0].1 == d {
                            let t0 = choose|t0: int|
                                0 <= t0 < dentry.len() && (#[trigger] dentry[t0]).0 == s
                                    && dentry[t0].1 == d;
                            assert(dedup@[t0] == dentry[t0]);
                        } else {
                            assert(dedup@[dedup@.len() - 1] == (s, d, w));
                        }
                    }
                }
            }
        }
        proof {
            assert forall|k1: int, k2: int|
                0 <= k1 < k2 < dedup@.len() implies abs_w((#[trigger] dedup@[k1]).2 as int)
                >= abs_w((#[trigger] dedup@[k2]).2 as int) by {
                assert(dedup@[k1] == sorted@[order[k1]]);
                assert(dedup@[k2] == sorted@[order[k2]]);
                assert(order[k1] < order[k2]);
            }
        }
        // slice and map to names
        let total = dedup.len();
        let start: usize = if (index as usize) < total {
            index as usize
        } else {
            total
        };
        let stop: usize = if total - start > (count as usize) {
            start + (count as usize)
        } else {
            total
        };
        let mut r: Vec<(String, String, Weight)> = Vec::new();
        for i in start..stop
            invariant
                self.wf(),
                self.node_infos@ == infos0,
                self.contexts@ == ctxs0,
                n_nodes == infos0.len(),
                total == dedup@.len(),
                start <= stop <= total,
                stop - start <= count,
                r@.len() == i - start,
                forall|k: int|
                    0 <= k < dedup@.len() ==> (#[trigger] dedup@[k]).2 != 0 && dedup@[k].0
                        != dedup@[k].1 && dedup@[k].0 < n_nodes && dedup@[k].1 < n_nodes,
                forall|k1: int, k2: int|
                    0 <= k1 < k2 < dedup@.len() ==> !((#[trigger] dedup@[k1]).0 == (
                    #[trigger] dedup@[k2]).0 && dedup@[k1].1 == dedup@[k2].1),
                forall|k1: int, k2: int|
                    0 <= k1 < k2 < dedup@.len() ==> abs_w((#[trigger] dedup@[k1]).2 as int)
                        >= abs_w((#[trigger] dedup@[k2]).2 as int),
                forall|k: int|
                    0 <= k < r@.len() ==> (#[trigger] r@[k]).2 == dedup@[k + start].2
                        && r@[k].0@ == self.node_infos@[dedup@[k + start].0 as int].name@
                        && r@[k].1@ == self.node_infos@[dedup@[k + start].1 as int].name@,
                (forall|k: int|
                    0 <= k < dedup@.len() ==> (#[trigger] dedup@[k]).0 == focus_id) ==> forall|
                    k: int,
                |
                    0 <= k < r@.len() ==> (#[trigger] r@[k]).0@
                        == self.node_infos@[focus_id as int].name@,
        {
            let (s, d, w) = dedup[i];
            let sn = self.node_infos[s].name.clone();
            let dn = self.node_infos[d].name.clone();
            r.push((sn, dn, w));
        }
        proof {
            // distinct ids have distinct names
            assert forall|k1: int, k2: int|
                0 <= k1 < k2 < r@.len() implies !((#[trigger] r@[k1]).0@ == (
            #[trigger] r@[k2]).0@ && r@[k1].1@ == r@[k2].1@) by {
                let e1 = dedup@[k1 + start];
                let e2 = dedup@[k2 + start];
                if e1.0 == e2.0 && e1.1 == e2.1 {
                } else {
                    if e1.0 != e2.0 {
                        assert(self.node_infos@[e1.0 as int].name@
                            != self.node_infos@[e2.0 as int].name@);
                    } else {
                        assert(self.node_infos@[e1.1 as int].name@
                            != self.node_infos@[e2.1 as int].name@);
                    }
                }
            }
            assert forall|k: int| 0 <= k < r@.len() implies (#[trigger] r@[k]).0@ != r@[k].1@ by {
                let e = dedup@[k + start];
                assert(self.node_infos@[e.0 as int].name@ != self.node_infos@[e.1 as int].name@);
            }
            if ego@ == focus@ {
                assert(ego_id == focus_id);
                lemma_find_node_range(self.node_infos@, focus@);
                assert forall|k: int| 0 <= k < r@.len() implies (#[trigger] r@[k]).0@
                    == focus@ by {
                    assert(self.node_infos@[focus_id as int].name@ == focus@);
                }
            }
            // assemble the content contract
            assert forall|j: int|
                #![trigger acc_spec[j]]
                0 <= j < acc_spec.len() && acc_spec[j].0 != acc_spec[j].1 && acc_spec[j].2 != 0
                    && acc_spec[j].0 < infos0.len() && acc_spec[j].1 < infos0.len() implies has_pair_sd(
                dedup@,
                acc_spec[j].0 as int,
                acc_spec[j].1 as int,
            ) by {
                sorted@.to_multiset_ensures();
                acc_spec.to_multiset_ensures();
                assert(acc_spec.contains(acc_spec[j]));
                assert(acc_spec.to_multiset().count(acc_spec[j]) > 0);
                assert(sorted@.to_multiset().count(acc_spec[j]) > 0);
                assert(sorted@.contains(acc_spec[j]));
                let jx = choose|jx: int| 0 <= jx < sorted@.len() && sorted@[jx] == acc_spec[j];
            }
            assert forall|k: int|
                #![trigger dedup@[k]]
                0 <= k < dedup@.len() implies has_triple(
                acc_spec,
                dedup@[k].0 as int,
                dedup@[k].1 as int,
                dedup@[k].2 as int,
            ) by {
                sorted@.to_multiset_ensures();
                acc_spec.to_multiset_ensures();
                assert(dedup@[k] == sorted@[order[k]]);
                assert(sorted@.contains(sorted@[order[k]]));
                assert(sorted@.to_multiset().count(sorted@[order[k]]) > 0);
                assert(acc_spec.to_multiset().count(sorted@[order[k]]) > 0);
                assert(acc_spec.contains(sorted@[order[k]]));
                let jx = choose|jx: int|
                    0 <= jx < acc_spec.len() && acc_spec[jx] == sorted@[order[k]];
            }
            if ego_id == focus_id {
                assert(forall|k: int|
                    0 <= k < dedup@.len() ==> (#[trigger] dedup@[k]).0 as int == focus_id as int);
            }
            assert(r@.len() == (if index as int >= dedup@.len() {
                0int
            } else if index as int + count as int <= dedup@.len() {
                count as int
            } else {
                dedup@.len() - index as int
            }));
            assert(graph_read_post(
                infos0,
                ctxs0,
                context@,
                ego_id as int,
                focus_id as int,
                positive_only,
                index as int,
                count as int,
                acc_spec,
                dedup@,
                r@,
            ));
            assert(infos0 == old(self).node_infos@ && ctxs0 == old(self).contexts@);
            assert(ego_id as int == (*old(self)).id_of(ego@) && focus_id as int == (*old(self)).id_of(focus@));
        }
        r
    }
}

} // verus!
