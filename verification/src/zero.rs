//! The zero-node recalculation: the reduced user graph and the reseeding of
//! the synthetic zero node.
//!
//! The zero node's outgoing edges in the null context encode a shared seed
//! set.  The engine extracts the reduced graph (positively scored user or
//! beacon targets of every user, by the cached ranks); the caller runs
//! PageRank over it and hands the ranked nodes back; the engine purges the
//! zero node's edges and writes the top entries as fresh seed edges.

use vstd::prelude::*;
use crate::engine::{AugMultiGraph, find_ctx, lemma_find_ctx_range, lemma_find_ctx_unique, lemma_find_node_unique, w_of};
use crate::graph::{has_dst, lemma_find_w_nonzero};
use crate::nodes::{NodeInfo, NodeKind};
use crate::{NodeId, Weight, MAX_EDGE_AMOUNT, TOP_NODES_LIMIT};

verus! {

/// The empty string literal views as the empty character sequence.
pub proof fn proof_strlit_empty()
    ensures
        ""@ == Seq::<char>::empty(),
{
    reveal_strlit("");
    assert(""@ =~= Seq::<char>::empty());
}

/// A reduced-graph row `(u, v)` with score `s` is present.
pub open spec fn has_reduced_row(
    rows: Seq<(NodeId, NodeId, Weight)>,
    u: int,
    v: int,
    s: int,
) -> bool {
    exists|k: int|
        #![trigger rows[k]]
        0 <= k < rows.len() && rows[k].0 as int == u && rows[k].1 as int == v && rows[k].2 as int
            == s
}

/// A present row stays present when more rows are appended.
pub proof fn lemma_reduced_row_push(
    rows: Seq<(NodeId, NodeId, Weight)>,
    e: (NodeId, NodeId, Weight),
    u: int,
    v: int,
    s: int,
)
    requires
        has_reduced_row(rows, u, v, s),
    ensures
        has_reduced_row(rows.push(e), u, v, s),
{
    let k = choose|k: int|
        #![trigger rows[k]]
        0 <= k < rows.len() && rows[k].0 as int == u && rows[k].1 as int == v && rows[k].2 as int
            == s;
    assert(rows.push(e)[k] == rows[k]);
}

/// Whether one ranked entry is accepted as a zero-node seed edge: its node
/// is registered, is a user or beacon, is not the zero node itself, and its
/// amount is positive and within the write cap.
pub open spec fn seed_accepted(infos: Seq<NodeInfo>, zid: int, e: (NodeId, Weight)) -> bool {
    &&& (e.0 as int) < infos.len()
    &&& e.0 as int != zid
    &&& e.1 > 0
    &&& e.1 <= MAX_EDGE_AMOUNT
    &&& (infos[e.0 as int].kind == NodeKind::User || infos[e.0 as int].kind == NodeKind::Beacon)
}

/// The seed weight a destination `d` ends with after the ranked prefix is
/// applied in order: the amount of the last accepted entry for `d`, zero
/// when none is accepted.
pub open spec fn seed_value(
    infos: Seq<NodeInfo>,
    zid: int,
    top: Seq<(NodeId, Weight)>,
    d: int,
) -> int
    decreases top.len(),
{
    if top.len() == 0 {
        0
    } else if seed_accepted(infos, zid, top.last()) && top.last().0 as int == d {
        top.last().1 as int
    } else {
        seed_value(infos, zid, top.drop_last(), d)
    }
}

/// A nonzero seed weight comes from an accepted entry: it is positive,
/// capped, aimed at a registered user or beacon other than the zero node,
/// and its destination occurs in the ranked prefix.
pub proof fn lemma_seed_value_props(
    infos: Seq<NodeInfo>,
    zid: int,
    top: Seq<(NodeId, Weight)>,
    d: int,
)
    requires
        seed_value(infos, zid, top, d) != 0,
    ensures
        0 < seed_value(infos, zid, top, d) <= MAX_EDGE_AMOUNT,
        d != zid,
        0 <= d < infos.len(),
        infos[d].kind == NodeKind::User || infos[d].kind == NodeKind::Beacon,
        has_dst(top, d),
    decreases top.len(),
{
    if top.len() > 0 {
        if seed_accepted(infos, zid, top.last()) && top.last().0 as int == d {
            assert(top[top.len() - 1].0 == top.last().0);
        } else {
            lemma_seed_value_props(infos, zid, top.drop_last(), d);
            let k = choose|k: int|
                0 <= k < top.drop_last().len() && (#[trigger] top.drop_last()[k]).0 == d;
            assert(top[k] == top.drop_last()[k]);
        }
    }
}

impl AugMultiGraph {
    /// The reduced user graph: for every user `u` other than the zero node,
    /// each target `v` of `u`'s cached null-context ranks that is a user or
    /// beacon, positively scored, distinct from `u`, and not the zero node.
    /// Sound and complete: the rows are exactly those pairs, with the
    /// cached score.
    pub fn reduced_graph(&mut self) -> (r: Vec<(NodeId, NodeId, Weight)>)
        requires
            old(self).wf(),
        ensures
            final(self).wf(),
            final(self).contexts@ == old(self).contexts@,
            forall|i: int|
                0 <= i < old(self).node_infos@.len() ==> final(self).node_infos@[i] == old(self).node_infos@[i],
            ({
                let zid = (*final(self)).id_of(final(self).zero_node@);
                forall|k: int|
                    #![trigger r@[k]]
                    0 <= k < r@.len() ==> (*final(self)).is_user(r@[k].0 as int) && ((*final(self)).kind_of(r@[k].1 as int) == NodeKind::User || (*final(self)).kind_of(
                        r@[k].1 as int,
                    ) == NodeKind::Beacon) && r@[k].2 > 0 && r@[k].0 != r@[k].1 && r@[k].0 as int
                        != zid && r@[k].1 as int != zid && r@[k].2 as int == (*final(self)).cached_score(Seq::<char>::empty(), r@[k].0 as int, r@[k].1 as int)
            }),
            ({
                let zid = (*final(self)).id_of(final(self).zero_node@);
                forall|u: int, v: int|
                    #![trigger (*final(self)).cached_score(Seq::<char>::empty(), u, v)]
                    0 <= u < final(self).node_infos@.len() && (*final(self)).is_user(u) && u != zid
                        && ((*final(self)).kind_of(v) == NodeKind::User || (*final(self)).kind_of(
                        v,
                    ) == NodeKind::Beacon) && v != u && v != zid && (*final(self)).cached_score(
                        Seq::<char>::empty(),
                        u,
                        v,
                    ) > 0 ==> has_reduced_row(
                        r@,
                        u,
                        v,
                        (*final(self)).cached_score(Seq::<char>::empty(), u, v),
                    )
            }),
    {
        let zn = self.zero_node.clone();
        let zid = self.find_or_add_node_by_name(zn.as_str());
        let ghost base = *self;
        proof {
            proof_strlit_empty();
        }
        let mut r: Vec<(NodeId, NodeId, Weight)> = Vec::new();
        let n = self.node_count;
        assert(n == self.node_infos@.len());
        for u in 0..n
            invariant
                self.wf(),
                *self == base,
                n == self.node_infos@.len(),
                zid < n,
                (*self).id_of(self.zero_node@) == zid,
                forall|k: int|
                    #![trigger r@[k]]
                    0 <= k < r@.len() ==> self.is_user(r@[k].0 as int) && (self.kind_of(
                        r@[k].1 as int,
                    ) == NodeKind::User || self.kind_of(r@[k].1 as int) == NodeKind::Beacon)
                        && r@[k].2 > 0 && r@[k].0 != r@[k].1 && r@[k].0 as int != zid
                        && r@[k].1 as int != zid && r@[k].2 as int == self.cached_score(
                        Seq::<char>::empty(),
                        r@[k].0 as int,
                        r@[k].1 as int,
                    ),
                forall|uu: int, v: int|
                    #![trigger self.cached_score(Seq::<char>::empty(), uu, v)]
                    0 <= uu < u && self.is_user(uu) && uu != zid && (self.kind_of(v)
                        == NodeKind::User || self.kind_of(v) == NodeKind::Beacon) && v != uu && v
                        != zid && self.cached_score(Seq::<char>::empty(), uu, v) > 0
                        ==> has_reduced_row(
                        r@,
                        uu,
                        v,
                        self.cached_score(Seq::<char>::empty(), uu, v),
                    ),
        {
            let is_user = self.node_infos[u].kind == NodeKind::User;
            if is_user && u != zid {
                let empty_ranks: Vec<(NodeId, Weight)> = Vec::new();
                let ranks: &Vec<(NodeId, Weight)> = match self.context_index("") {
                    Some(c) => {
                        if u < self.contexts[c].ranks.len() {
                            match &self.contexts[c].ranks[u] {
                                Some(v) => v,
                                None => &empty_ranks,
                            }
                        } else {
                            &empty_ranks
                        }
                    },
                    None => &empty_ranks,
                };
                let ghost rs = ranks@;
                proof {
                    proof_strlit_empty();
                    assert(rs == match self.cached_ranks(Seq::<char>::empty(), u as int) {
                        Some(v) => v,
                        None => Seq::<(NodeId, Weight)>::empty(),
                    });
                }
                let m = ranks.len();
                for j in 0..m
                    invariant
                        self.wf(),
                        *self == base,
                        n == self.node_infos@.len(),
                        zid < n,
                        u < n,
                        u != zid,
                        (*self).id_of(self.zero_node@) == zid,
                        self.is_user(u as int),
                        m == ranks@.len(),
                        ranks@ == rs,
                        rs == (match self.cached_ranks(Seq::<char>::empty(), u as int) {
                            Some(v) => v,
                            None => Seq::<(NodeId, Weight)>::empty(),
                        }),
                        forall|k: int|
                            #![trigger r@[k]]
                            0 <= k < r@.len() ==> self.is_user(r@[k].0 as int) && (self.kind_of(
                                r@[k].1 as int,
                            ) == NodeKind::User || self.kind_of(r@[k].1 as int)
                                == NodeKind::Beacon) && r@[k].2 > 0 && r@[k].0 != r@[k].1
                                && r@[k].0 as int != zid && r@[k].1 as int != zid
                                && r@[k].2 as int == self.cached_score(
                                Seq::<char>::empty(),
                                r@[k].0 as int,
                                r@[k].1 as int,
                            ),
                        forall|uu: int, v: int|
                            #![trigger self.cached_score(Seq::<char>::empty(), uu, v)]
                            0 <= uu < u && self.is_user(uu) && uu != zid && (self.kind_of(v)
                                == NodeKind::User || self.kind_of(v) == NodeKind::Beacon) && v
                                != uu && v != zid && self.cached_score(Seq::<char>::empty(), uu, v)
                                > 0 ==> has_reduced_row(
                                r@,
                                uu,
                                v,
                                self.cached_score(Seq::<char>::empty(), uu, v),
                            ),
                        forall|jj: int|
                            #![trigger rs[jj]]
                            0 <= jj < j && (self.kind_of(rs[jj].0 as int) == NodeKind::User
                                || self.kind_of(rs[jj].0 as int) == NodeKind::Beacon)
                                && rs[jj].0 != u && rs[jj].0 as int != zid && self.cached_score(
                                Seq::<char>::empty(),
                                u as int,
                                rs[jj].0 as int,
                            ) > 0 ==> has_reduced_row(
                                r@,
                                u as int,
                                rs[jj].0 as int,
                                self.cached_score(Seq::<char>::empty(), u as int, rs[jj].0 as int),
                            ),
                {
                    let (v, _score_listed) = ranks[j];
                    // look the score up through the cache so the stored row
                    // matches the cached value even if the list repeats ids
                    let score = self.score_lookup_at("", u, v);
                    let vk = if v < self.node_infos.len() {
                        self.node_infos[v].kind
                    } else {
                        NodeKind::Unknown
                    };
                    let pushed = (vk == NodeKind::User || vk == NodeKind::Beacon) && score > 0 && u
                        != v && v != zid;
                    let ghost rold = r@;
                    if pushed {
                        r.push((u, v, score));
                    }
                    proof {
                        proof_strlit_empty();
                        if pushed {
                            assert forall|k: int|
                                #![trigger r@[k]]
                                0 <= k < r@.len() implies self.is_user(r@[k].0 as int) && (
                            self.kind_of(r@[k].1 as int) == NodeKind::User || self.kind_of(
                                r@[k].1 as int,
                            ) == NodeKind::Beacon) && r@[k].2 > 0 && r@[k].0 != r@[k].1
                                && r@[k].0 as int != zid && r@[k].1 as int != zid
                                && r@[k].2 as int == self.cached_score(
                                Seq::<char>::empty(),
                                r@[k].0 as int,
                                r@[k].1 as int,
                            ) by {
                                if k < r@.len() - 1 {
                                    assert(r@[k] == rold[k]);
                                } else {
                                    assert(r@[k] == (u, v, score));
                                    assert(score as int == self.cached_score(
                                        Seq::<char>::empty(),
                                        u as int,
                                        v as int,
                                    ));
                                }
                            }
                            assert forall|uu: int, vv: int|
                                #![trigger self.cached_score(Seq::<char>::empty(), uu, vv)]
                                0 <= uu < u && self.is_user(uu) && uu != zid && (self.kind_of(vv)
                                    == NodeKind::User || self.kind_of(vv) == NodeKind::Beacon)
                                    && vv != uu && vv != zid && self.cached_score(
                                    Seq::<char>::empty(),
                                    uu,
                                    vv,
                                ) > 0 implies has_reduced_row(
                                r@,
                                uu,
                                vv,
                                self.cached_score(Seq::<char>::empty(), uu, vv),
                            ) by {
                                lemma_reduced_row_push(
                                    rold,
                                    (u, v, score),
                                    uu,
                                    vv,
                                    self.cached_score(Seq::<char>::empty(), uu, vv),
                                );
                            }
                        }
                        assert forall|jj: int|
                            #![trigger rs[jj]]
                            0 <= jj < j + 1 && (self.kind_of(rs[jj].0 as int) == NodeKind::User
                                || self.kind_of(rs[jj].0 as int) == NodeKind::Beacon)
                                && rs[jj].0 != u && rs[jj].0 as int != zid && self.cached_score(
                                Seq::<char>::empty(),
                                u as int,
                                rs[jj].0 as int,
                            ) > 0 implies has_reduced_row(
                            r@,
                            u as int,
                            rs[jj].0 as int,
                            self.cached_score(Seq::<char>::empty(), u as int, rs[jj].0 as int),
                        ) by {
                            let sc = self.cached_score(
                                Seq::<char>::empty(),
                                u as int,
                                rs[jj].0 as int,
                            );
                            if jj < j {
                                assert(has_reduced_row(rold, u as int, rs[jj].0 as int, sc));
                                if pushed {
                                    lemma_reduced_row_push(
                                        rold,
                                        (u, v, score),
                                        u as int,
                                        rs[jj].0 as int,
                                        sc,
                                    );
                                } else {
                                    assert(r@ == rold);
                                }
                            } else {
                                // the entry of this iteration was pushed
                                assert(rs[jj].0 == v);
                                assert(v < self.node_infos@.len());
                                assert(vk == self.kind_of(v as int));
                                assert(score as int == sc);
                                assert(pushed);
                                assert(r@[r@.len() - 1] == (u, v, score));
                            }
                        }
                    }
                }
                proof {
                    proof_strlit_empty();
                    assert forall|v: int|
                        (self.kind_of(v) == NodeKind::User || self.kind_of(v) == NodeKind::Beacon)
                            && v != u && v != zid && self.cached_score(
                            Seq::<char>::empty(),
                            u as int,
                            v,
                        ) > 0 implies has_reduced_row(
                        r@,
                        u as int,
                        v,
                        self.cached_score(Seq::<char>::empty(), u as int, v),
                    ) by {
                        // a positive cached score means the target occurs in
                        // the cached rank list
                        match self.cached_ranks(Seq::<char>::empty(), u as int) {
                            Some(list) => {
                                assert(list == rs);
                                lemma_find_w_nonzero(rs, v);
                                let i = choose|i: int|
                                    0 <= i < rs.len() && (#[trigger] rs[i]).0 == v && rs[i].1
                                        == crate::graph::find_w(rs, v);
                                assert(rs[i].0 as int == v);
                            },
                            None => {},
                        }
                    }
                }
            }
        }
        r
    }

    /// Purge and reseed the zero node's outgoing edges: zero every current
    /// edge, then apply the first `TOP_NODES_LIMIT` ranked entries in order.
    /// An entry is written only when `seed_accepted` holds of it, so
    /// afterwards the zero node's outgoing null-context weight of every
    /// destination is exactly `seed_value` of the applied prefix: positive
    /// seed edges to at most `TOP_NODES_LIMIT` users or beacons, zero
    /// everywhere else.
    pub fn write_recalculate_zero(&mut self, top: &Vec<(NodeId, Weight)>)
        requires
            old(self).wf(),
        ensures
            final(self).wf(),
            forall|i: int|
                0 <= i < old(self).node_infos@.len() ==> final(self).node_infos@[i] == old(self).node_infos@[i],
            (*old(self)).can_write_ctx(Seq::<char>::empty()) ==> ({
                let zid = (*final(self)).id_of(final(self).zero_node@);
                let nc = find_ctx(final(self).contexts@, Seq::<char>::empty());
                let lim = if top@.len() <= TOP_NODES_LIMIT {
                    top@.len() as int
                } else {
                    TOP_NODES_LIMIT as int
                };
                forall|d: int|
                    #[trigger] w_of(final(self).contexts@, nc, zid, d) == seed_value(
                        final(self).node_infos@,
                        zid,
                        top@.subrange(0, lim),
                        d,
                    )
            }),
    {
        proof {
            proof_strlit_empty();
        }
        let zn = self.zero_node.clone();
        let zid = self.find_or_add_node_by_name(zn.as_str());
        let ghost mid0 = *self;
        proof {
            lemma_find_node_unique(mid0.node_infos@, zn@, zid as int);
        }
        self.write_delete_node("", zn.as_str());
        let ghost purged = *self;
        let limit = if top.len() < TOP_NODES_LIMIT {
            top.len()
        } else {
            TOP_NODES_LIMIT
        };
        let have_null = match self.context_index("") {
            Some(_) => true,
            None => false,
        };
        if !have_null {
            // the null context cannot exist: nothing was or can be written
            proof {
                if (*old(self)).can_write_ctx(Seq::<char>::empty()) {
                    // the purge had both the id and the capacity, so it
                    // ensured the null context exists
                    assert(mid0.can_write_ctx(""@));
                    assert(mid0.id_of(""@) >= 0 || true);
                    assert(find_ctx(purged.contexts@, ""@) >= 0);
                    assert(find_ctx(purged.contexts@, Seq::<char>::empty()) >= 0);
                    assert(false);
                }
            }
            return ;
        }
        let ghost nc0 = find_ctx(purged.contexts@, Seq::<char>::empty());
        proof {
            lemma_find_ctx_range(purged.contexts@, Seq::<char>::empty());
            if (*old(self)).can_write_ctx(Seq::<char>::empty()) {
                assert(mid0.can_write_ctx(""@));
                assert(forall|d: int| #[trigger] w_of(purged.contexts@, nc0, zid as int, d) == 0);
            }
            assert(top@.subrange(0, 0) =~= Seq::<(NodeId, Weight)>::empty());
        }
        for k in 0..limit
            invariant
                self.wf(),
                purged.wf(),
                self.node_infos@ == purged.node_infos@,
                self.node_count == purged.node_count,
                self.zero_node@ == purged.zero_node@,
                zid < self.node_count,
                limit <= top@.len(),
                limit <= TOP_NODES_LIMIT,
                0 <= nc0 < purged.contexts@.len(),
                purged.contexts@[nc0].name@ == Seq::<char>::empty(),
                purged.contexts@.len() <= self.contexts@.len(),
                forall|c: int|
                    0 <= c < purged.contexts@.len() ==> (#[trigger] self.contexts@[c]).name@
                        == purged.contexts@[c].name@,
                find_ctx(self.contexts@, Seq::<char>::empty()) == nc0,
                (*old(self)).can_write_ctx(Seq::<char>::empty()) ==> forall|d: int|
                    #[trigger] w_of(self.contexts@, nc0, zid as int, d) == seed_value(
                        self.node_infos@,
                        zid as int,
                        top@.subrange(0, k as int),
                        d,
                    ),
        {
            proof {
                proof_strlit_empty();
            }
            let (node, amount) = top[k];
            let nk = if node < self.node_infos.len() {
                self.node_infos[node].kind
            } else {
                NodeKind::Unknown
            };
            let accepted = node < self.node_count && node != zid && amount > 0 && amount
                <= MAX_EDGE_AMOUNT && (nk == NodeKind::User || nk == NodeKind::Beacon);
            proof {
                assert(accepted == seed_accepted(self.node_infos@, zid as int, top@[k as int]));
                assert(top@.subrange(0, k + 1).drop_last() =~= top@.subrange(0, k as int));
                assert(top@.subrange(0, k + 1).last() == top@[k as int]);
            }
            let ghost pre = *self;
            if accepted {
                proof {
                    assert(pre.can_write_ctx(""@)) by {
                        proof_strlit_empty();
                    }
                }
                self.set_edge("", zid, node, amount);
                proof {
                    assert forall|c: int|
                        0 <= c < purged.contexts@.len() implies (#[trigger] self.contexts@[c]).name@
                        == purged.contexts@[c].name@ by {
                        assert(self.contexts@[c].name@ == pre.contexts@[c].name@);
                    }
                    assert(find_ctx(self.contexts@, Seq::<char>::empty()) == nc0) by {
                        lemma_find_ctx_unique(self.contexts@, Seq::<char>::empty(), nc0);
                    }
                    if (*old(self)).can_write_ctx(Seq::<char>::empty()) {
                        assert forall|d: int|
                            #[trigger] w_of(self.contexts@, nc0, zid as int, d) == seed_value(
                            self.node_infos@,
                            zid as int,
                            top@.subrange(0, k + 1),
                            d,
                        ) by {
                            if d == node as int {
                                // the written pair carries the new amount,
                                // through the broadcast or the direct rule
                                if pre.is_user(zid as int) {
                                    assert(w_of(self.contexts@, nc0, zid as int, d)
                                        == amount as int);
                                } else {
                                    assert(find_ctx(self.contexts@, ""@) == nc0);
                                    assert(w_of(self.contexts@, nc0, zid as int, d)
                                        == amount as int);
                                }
                            } else {
                                assert(w_of(self.contexts@, nc0, zid as int, d) == w_of(
                                    pre.contexts@,
                                    nc0,
                                    zid as int,
                                    d,
                                ));
                            }
                        }
                    }
                }
            } else {
                proof {
                    if (*old(self)).can_write_ctx(Seq::<char>::empty()) {
                        assert(forall|d: int|
                            #[trigger] w_of(self.contexts@, nc0, zid as int, d) == seed_value(
                                self.node_infos@,
                                zid as int,
                                top@.subrange(0, k + 1),
                                d,
                            ));
                    }
                }
            }
        }
        proof {
            if (*old(self)).can_write_ctx(Seq::<char>::empty()) {
                lemma_find_node_unique(self.node_infos@, zn@, zid as int);
                assert(top@.subrange(0, limit as int) == top@.subrange(
                    0,
                    if top@.len() <= TOP_NODES_LIMIT {
                        top@.len() as int
                    } else {
                        TOP_NODES_LIMIT as int
                    },
                ));
            }
        }
    }
}

} // verus!
