//! Bounded-memory best-first pathfinder, driven by continuation passing:
//! the search holds no graph.  Each `iteration` either makes progress,
//! requests the k-th outgoing neighbour of a node (the caller fetches it and
//! hands it back), reports that its buffers are full (the caller doubles
//! them and resumes), or ends with success or failure.  With a zero
//! heuristic this is Dijkstra's algorithm over the fetched links.

use vstd::prelude::*;
use crate::{NodeId, Weight};

verus! {

/// One search entry: a node, its distance estimate along the best known
/// path, and the index of its predecessor in the closed list.
#[derive(Clone, Copy)]
pub struct SearchNode {
    pub id: NodeId,
    pub exact_distance: Weight,
    pub estimate: Weight,
    pub parent: usize,
}

impl Default for SearchNode {
    fn default() -> (r: Self)
        ensures
            r.id == 0 && r.exact_distance == 0 && r.estimate == 0 && r.parent == 0,
    {
        SearchNode { id: 0, exact_distance: 0, estimate: 0, parent: 0 }
    }
}

/// A fetched link: the neighbour and the cost of the hop.
#[derive(Clone, Copy)]
pub struct Link {
    pub neighbor: NodeId,
    pub exact_distance: Weight,
    pub estimate: Weight,
}

/// A request for the `index`-th outgoing neighbour of `node`.
#[derive(Clone, Copy)]
pub struct NeighborRequest {
    pub node: NodeId,
    pub index: usize,
}

/// What one iteration did.
pub enum Status {
    Progress,
    Neighbor(NeighborRequest),
    OutOfMemory,
    Success,
    Fail,
}

/// The search state between iterations.
pub struct AStarState {
    pub source: NodeId,
    pub destination: NodeId,
    pub num_open: usize,
    pub num_closed: usize,
    pub expanding: bool,
    pub cur_id: NodeId,
    pub cur_distance: Weight,
    pub cur_closed: usize,
    pub cur_index: usize,
    pub done: bool,
    pub found: bool,
}

/// The buffers and the state fit together: counted entries are in range and
/// every closed entry's parent points strictly earlier in the closed list.
pub open spec fn wf_astar(
    open: Seq<SearchNode>,
    closed: Seq<SearchNode>,
    state: AStarState,
) -> bool {
    &&& state.num_open <= open.len()
    &&& state.num_closed <= closed.len()
    &&& (forall|i: int|
        0 <= i < state.num_closed ==> 0 <= (#[trigger] closed[i]).parent <= i)
    &&& (forall|i: int|
        0 <= i < state.num_open ==> (#[trigger] open[i]).parent < state.num_closed || open[i].parent
            == 0)
    &&& (state.expanding ==> state.cur_closed < state.num_closed)
    &&& (state.num_closed > 0 ==> closed[0].id == state.source && closed[0].parent == 0)
    &&& (state.done && !state.found ==> state.num_open == 0)
    &&& (state.found ==> state.done && state.num_closed > 0 && closed[state.num_closed - 1].id
        == state.destination)
}

/// The node path encoded by the closed list's parent pointers, ending at
/// entry `at`: the chain is followed while parents strictly decrease, and
/// starts where an entry is its own parent.
pub open spec fn parent_chain(closed: Seq<SearchNode>, at: int) -> Seq<NodeId>
    decreases at,
{
    if 0 <= at < closed.len() && 0 <= closed[at].parent < at {
        parent_chain(closed, closed[at].parent as int).push(closed[at].id)
    } else if 0 <= at < closed.len() {
        seq![closed[at].id]
    } else {
        Seq::empty()
    }
}

/// Begin a search from `source` towards `destination`.  The open list gets
/// the source at distance zero.
pub fn init(
    open: &mut Vec<SearchNode>,
    source: NodeId,
    destination: NodeId,
    estimate: Weight,
) -> (state: AStarState)
    requires
        old(open).len() > 0,
    ensures
        final(open)@.len() == old(open)@.len(),
        wf_astar(final(open)@, Seq::empty(), state),
        state.num_open == 1,
        state.num_closed == 0,
        state.source == source,
        state.destination == destination,
        !state.done,
{
    open[0] = SearchNode { id: source, exact_distance: 0, estimate, parent: 0 };
    AStarState {
        source,
        destination,
        num_open: 1,
        num_closed: 0,
        expanding: false,
        cur_id: 0,
        cur_distance: 0,
        cur_closed: 0,
        cur_index: 0,
        done: false,
        found: false,
    }
}

/// One step of the search.  When the result is `Neighbor(rq)`, the caller
/// must call again with the requested link (or `None` when the node has no
/// `rq.index`-th neighbour).  `OutOfMemory` asks the caller to enlarge the
/// buffers and retry.
pub fn iteration(
    open: &mut Vec<SearchNode>,
    closed: &mut Vec<SearchNode>,
    state: &mut AStarState,
    neighbor: Option<Link>,
) -> (status: Status)
    requires
        wf_astar(old(open)@, old(closed)@, *old(state)),
        old(open).len() > 0,
    ensures
        wf_astar(final(open)@, final(closed)@, *final(state)),
        final(open)@.len() == old(open)@.len(),
        final(closed)@.len() == old(closed)@.len(),
        final(state).source == old(state).source,
        final(state).destination == old(state).destination,
        old(state).num_closed <= final(state).num_closed,
        final(state).found && !old(state).found ==> final(state).num_closed > 0 && final(closed)@[final(state).num_closed - 1].id == final(state).destination,
        old(state).found ==> final(state).found,
        // a failure is only reported when the search is finished with the
        // open list exhausted; a success only with the destination closed
        status is Fail ==> final(state).done && !final(state).found && final(state).num_open
            == 0,
        status is Success ==> final(state).found && final(state).num_closed > 0 && final(closed)@[final(state).num_closed - 1].id == final(state).destination,
        // a neighbour request names the node under expansion and its next
        // neighbour index
        (status matches Status::Neighbor(rq) ==> rq.node == final(state).cur_id && final(state).expanding && rq.index == final(state).cur_index),
        // consuming a fetched link relaxes it: afterwards the neighbour is
        // recorded in the open or the closed list
        (old(state).expanding && !old(state).done && neighbor is Some && (
        status matches Status::Neighbor(rq)) ==> (exists|i: int|
            0 <= i < final(state).num_open && (#[trigger] final(open)@[i]).id
                == neighbor.unwrap().neighbor) || (exists|i: int|
            0 <= i < final(state).num_closed && (#[trigger] final(closed)@[i]).id
                == neighbor.unwrap().neighbor)),
{
    if state.done {
        if state.found {
            return Status::Success;
        }
        return Status::Fail;
    }
    if state.expanding {
        match neighbor {
            Some(link) => {
                // relax the fetched link, then ask for the next one
                let mut in_closed = false;
                let ghost mut wit_c: int = 0;
                let nc = state.num_closed;
                for i in 0..nc
                    invariant
                        nc == state.num_closed,
                        nc <= closed@.len(),
                        in_closed ==> 0 <= wit_c < nc && closed@[wit_c].id == link.neighbor,
                {
                    if closed[i].id == link.neighbor {
                        in_closed = true;
                        proof {
                            wit_c = i as int;
                        }
                    }
                }
                let ghost mut open_wit: int = 0;
                if !in_closed {
                    let tentative = if link.exact_distance >= 0 && state.cur_distance
                        <= i128::MAX - link.exact_distance {
                        state.cur_distance + link.exact_distance
                    } else {
                        i128::MAX
                    };
                    let mut found_open = false;
                    let no = state.num_open;
                    let mut slot: usize = 0;
                    for i in 0..no
                        invariant
                            no == state.num_open,
                            no <= open@.len(),
                            slot < open@.len() || !found_open,
                            found_open ==> slot < no && open@[slot as int].id == link.neighbor,
                    {
                        if open[i].id == link.neighbor {
                            found_open = true;
                            slot = i;
                        }
                    }
                    if found_open {
                        if tentative < open[slot].exact_distance {
                            open[slot] = SearchNode {
                                id: link.neighbor,
                                exact_distance: tentative,
                                estimate: link.estimate,
                                parent: state.cur_closed,
                            };
                        }
                        proof {
                            open_wit = slot as int;
                        }
                    } else {
                        if state.num_open == open.len() {
                            return Status::OutOfMemory;
                        }
                        let at = state.num_open;
                        open[at] = SearchNode {
                            id: link.neighbor,
                            exact_distance: tentative,
                            estimate: link.estimate,
                            parent: state.cur_closed,
                        };
                        state.num_open = at + 1;
                        proof {
                            open_wit = at as int;
                        }
                    }
                }
                proof {
                    if in_closed {
                        assert(0 <= wit_c < state.num_closed && closed@[wit_c].id
                            == link.neighbor);
                    } else {
                        assert(0 <= open_wit < state.num_open && open@[open_wit].id
                            == link.neighbor);
                    }
                }
                let next_index = if state.cur_index < usize::MAX {
                    state.cur_index + 1
                } else {
                    state.cur_index
                };
                let rq = NeighborRequest { node: state.cur_id, index: next_index };
                state.cur_index = next_index;
                Status::Neighbor(rq)
            },
            None => {
                // the current node is fully expanded
                state.expanding = false;
                Status::Progress
            },
        }
    } else {
        if state.num_open == 0 {
            state.done = true;
            return Status::Fail;
        }
        // extract the open entry with the least distance
        let mut best: usize = 0;
        let no = state.num_open;
        for i in 1..no
            invariant
                no == state.num_open,
                no <= open@.len(),
                best < no,
        {
            if open[i].exact_distance < open[best].exact_distance {
                best = i;
            }
        }
        let picked = open[best];
        open[best] = open[no - 1];
        state.num_open = no - 1;
        // drop it if already closed
        let nc = state.num_closed;
        let mut in_closed = false;
        for i in 0..nc
            invariant
                nc == state.num_closed,
                nc <= closed@.len(),
        {
            if closed[i].id == picked.id {
                in_closed = true;
            }
        }
        if in_closed {
            return Status::Progress;
        }
        if state.num_closed == closed.len() {
            // roll the pick back so the caller can resize and retry
            if state.num_open == open.len() {
                return Status::OutOfMemory;
            }
            let at = state.num_open;
            open[at] = picked;
            state.num_open = at + 1;
            return Status::OutOfMemory;
        }
        let at = state.num_closed;
        let parent = if state.num_closed == 0 {
            0
        } else {
            if picked.parent <= at {
                picked.parent
            } else {
                0
            }
        };
        closed[at] = SearchNode {
            id: picked.id,
            exact_distance: picked.exact_distance,
            estimate: picked.estimate,
            parent,
        };
        if state.num_closed == 0 {
            // the first closed entry is the source
            closed[0] = SearchNode {
                id: state.source,
                exact_distance: picked.exact_distance,
                estimate: picked.estimate,
                parent: 0,
            };
        }
        state.num_closed = at + 1;
        if picked.id == state.destination {
            let last = state.num_closed - 1;
            if closed[last].id == state.destination {
                state.done = true;
                state.found = true;
                return Status::Success;
            }
        }
        state.expanding = true;
        state.cur_id = picked.id;
        state.cur_distance = picked.exact_distance;
        state.cur_closed = at;
        state.cur_index = 0;
        let rq = NeighborRequest { node: picked.id, index: 0 };
        Status::Neighbor(rq)
    }
}

/// Reconstruct the found path from the closed list by following parents
/// from the last closed entry back to the start, writing it source-first
/// into `out`.  Returns how many entries were written.
pub fn path(closed: &Vec<SearchNode>, state: &AStarState, out: &mut Vec<NodeId>) -> (n: usize)
    requires
        state.num_closed <= closed@.len(),
        forall|i: int| 0 <= i < state.num_closed ==> 0 <= (#[trigger] closed@[i]).parent <= i,
    ensures
        n <= final(out)@.len(),
        final(out)@.len() == old(out)@.len(),
        n <= state.num_closed,
        n > 0 ==> state.num_closed > 0,
        state.num_closed == 0 ==> n == 0,
        // the written prefix is exactly the parent chain ending at the last
        // closed entry, truncated to the output buffer
        state.num_closed > 0 ==> ({
            let ch = parent_chain(closed@, state.num_closed - 1);
            &&& n == (if ch.len() <= old(out)@.len() {
                ch.len() as int
            } else {
                old(out)@.len() as int
            })
            &&& forall|i: int| 0 <= i < n ==> #[trigger] final(out)@[i] == ch[i]
        }),
{
    if state.num_closed == 0 {
        return 0;
    }
    // collect ids walking backwards through parents
    let mut rev: Vec<NodeId> = Vec::new();
    let mut at: usize = state.num_closed - 1;
    let mut steps: usize = 0;
    let ghost top: int = state.num_closed - 1;
    loop
        invariant_except_break
            rev@.len() == steps,
            steps + at < state.num_closed,
            parent_chain(closed@, top) == parent_chain(closed@, at as int) + rev@.reverse(),
        invariant
            at < state.num_closed,
            top == state.num_closed - 1,
            state.num_closed <= closed@.len(),
            forall|i: int| 0 <= i < state.num_closed ==> 0 <= (#[trigger] closed@[i]).parent <= i,
        ensures
            rev@.len() == steps,
            steps <= state.num_closed,
            rev@.reverse() == parent_chain(closed@, top),
        decreases at,
    {
        proof {
            assert(parent_chain(closed@, top) == parent_chain(closed@, at as int)
                + rev@.reverse());
        }
        let ghost rev0 = rev@;
        rev.push(closed[at].id);
        steps = steps + 1;
        proof {
            assert(rev@.reverse() =~= seq![closed@[at as int].id] + rev0.reverse());
        }
        let p = closed[at].parent;
        if p == at {
            proof {
                assert(steps <= state.num_closed);
                assert(parent_chain(closed@, at as int) =~= seq![closed@[at as int].id]);
                assert(parent_chain(closed@, top) =~= rev@.reverse());
            }
            break ;
        }
        proof {
            assert(0 <= closed@[at as int].parent < at as int);
            assert(parent_chain(closed@, at as int) == parent_chain(closed@, p as int).push(
                closed@[at as int].id,
            ));
            assert(parent_chain(closed@, p as int).push(closed@[at as int].id) + rev0.reverse()
                =~= parent_chain(closed@, p as int) + (seq![closed@[at as int].id]
                + rev0.reverse()));
            assert(parent_chain(closed@, top) == parent_chain(closed@, p as int)
                + rev@.reverse());
        }
        at = p;
    }
    // write them out in source-first order, bounded by the output buffer
    let k = rev.len();
    let m = if k <= out.len() {
        k
    } else {
        out.len()
    };
    for i in 0..m
        invariant
            m <= k,
            k == rev@.len(),
            m <= out@.len(),
            out@.len() == old(out)@.len(),
            rev@.reverse() == parent_chain(closed@, top),
            forall|ii: int| 0 <= ii < i ==> #[trigger] out@[ii] == rev@.reverse()[ii],
    {
        out[i] = rev[k - 1 - i];
        proof {
            assert(rev@.reverse()[i as int] == rev@[k - 1 - i]);
        }
    }
    proof {
        assert(steps <= state.num_closed);
        assert(parent_chain(closed@, top).len() == rev@.len());
    }
    if m < k {
        m
    } else {
        k
    }
}

} // verus!
