//! The per-grid move cache: a directed graph over previously visited
//! single-grid states, held as an arena of nodes addressed by dense
//! indices, with edges stored as (from, to, direction) triples.  A
//! bounded forward search fills it; a backward relaxation from exit
//! states annotates each solved node with a remaining depth, bounded by
//! the horizon, and the directions that open an escape of that depth.

use vstd::prelude::*;
use vstd::pervasive::VecAdditionalExecFns;

use crate::HORIZON;
use crate::singlemaze::{dir_order, escapes_in, lemma_dir_indexed, single_replay, Direction, GridView, SingleMaze, SingleMazeState, StateView};

verus! {

/// The first node of the cache holding this state identity, from index
/// `i` on; `-1` when there is none.
pub open spec fn find_node(memo: StateMemo, s: StateView, i: int) -> int
    decreases memo.states@.len() - i,
{
    if i < 0 || i >= memo.states@.len() {
        -1
    } else if memo.states@[i]@ == s {
        i
    } else {
        find_node(memo, s, i + 1)
    }
}

/// A node at `idx` holding `s`, with no earlier node holding it, is the
/// one `find_node` names.
proof fn lemma_find_node_at(memo: StateMemo, s: StateView, idx: int, i: int)
    requires
        0 <= i <= idx < memo.states@.len(),
        memo.states@[idx]@ == s,
        forall|j: int| 0 <= j < idx ==> (#[trigger] memo.states@[j])@ != s,
    ensures
        find_node(memo, s, i) == idx,
    decreases idx - i,
{
    if i < idx {
        lemma_find_node_at(memo, s, idx, i + 1);
    }
}

/// When no node holds the state identity, `find_node` reports none.
proof fn lemma_find_node_none(memo: StateMemo, s: StateView, i: int)
    requires
        forall|j: int| 0 <= j < memo.states@.len() ==> (#[trigger] memo.states@[j])@ != s,
    ensures
        find_node(memo, s, i) == -1,
    decreases memo.states@.len() - i,
{
    if 0 <= i < memo.states@.len() {
        lemma_find_node_none(memo, s, i + 1);
    }
}

/// Mathematical view of one entry that `next_moves` returns.
pub ghost struct MoveView {
    pub direction: Direction,
    pub is_best: bool,
    pub remaining: int,
    pub next: StateView,
}

/// The views of a list of returned moves.
pub open spec fn moves_view(ms: Seq<(Direction, bool, usize, SingleMazeState)>) -> Seq<MoveView> {
    ms.map_values(
        |e: (Direction, bool, usize, SingleMazeState)|
            MoveView { direction: e.0, is_best: e.1, remaining: e.2 as int, next: e.3@ },
    )
}

/// What a query on a state already outside returns: all four directions,
/// each a best move with no remaining depth, the state frozen.
pub open spec fn frozen_moves(s: StateView) -> Seq<MoveView> {
    Seq::new(4, |j: int| MoveView { direction: dir_order()[j], is_best: true, remaining: 0, next: s })
}

/// The entry that edge `k`, leaving node `idx`, contributes to a query's
/// answer: the edge's direction, whether that direction is recorded as
/// best, the target's remaining depth (clamped past the horizon when the
/// target is unsolved), and the target's state.
pub open spec fn move_of_edge(memo: StateMemo, idx: int, k: int) -> MoveView {
    let t = memo.edges@[k].1 as int;
    MoveView {
        direction: memo.edges@[k].2,
        is_best: memo.best@[idx]@.contains(memo.edges@[k].2),
        remaining: if memo.solved@[t] {
            memo.depth_to_solution@[t] as int
        } else {
            HORIZON + 1
        },
        next: memo.states@[t]@,
    }
}

/// What a query on the settled node `idx` returns: one entry per
/// recorded edge leaving it, in edge order, from edge `k` on.
pub open spec fn recorded_moves(memo: StateMemo, idx: int, k: int) -> Seq<MoveView>
    decreases memo.edges@.len() - k,
{
    if k < 0 || k >= memo.edges@.len() {
        Seq::empty()
    } else if memo.edges@[k].0 == idx {
        seq![move_of_edge(memo, idx, k)] + recorded_moves(memo, idx, k + 1)
    } else {
        recorded_moves(memo, idx, k + 1)
    }
}

/// The per-grid state graph.  `states` holds each node's identity; the
/// parallel vectors hold the search annotations, which never take part
/// in identity; `edges` holds one entry per recorded transition.
pub struct StateMemo {
    pub states: Vec<SingleMazeState>,
    pub depth: Vec<usize>,
    pub solved: Vec<bool>,
    pub depth_to_solution: Vec<usize>,
    pub best: Vec<Vec<Direction>>,
    pub edges: Vec<(usize, usize, Direction)>,
}

impl StateMemo {
    /// The annotation vectors run parallel to the node vector.
    pub open spec fn len_ok(self) -> bool {
        &&& self.depth@.len() == self.states@.len()
        &&& self.solved@.len() == self.states@.len()
        &&& self.depth_to_solution@.len() == self.states@.len()
        &&& self.best@.len() == self.states@.len()
    }

    /// Every node's state is well-formed for the grid.
    pub open spec fn states_ok(self, g: GridView) -> bool {
        forall|i: int| 0 <= i < self.states@.len() ==> g.state_wf((#[trigger] self.states@[i])@)
    }

    /// Every recorded edge is a legal transition between its nodes.
    pub open spec fn edges_ok(self, g: GridView) -> bool {
        forall|k: int|
            0 <= k < self.edges@.len() ==> {
                let e = #[trigger] self.edges@[k];
                &&& (e.0 as int) < self.states@.len()
                &&& (e.1 as int) < self.states@.len()
                &&& g.spec_step(self.states@[e.0 as int]@, e.2).0 == true
                &&& g.spec_step(self.states@[e.0 as int]@, e.2).1 == self.states@[e.1 as int]@
            }
    }

    /// Direction `best[i][b]` follows an edge from node `i` to a node
    /// solved one tick closer to the exit.
    pub open spec fn best_dir_ok(self, i: int, b: int) -> bool {
        exists|k: int|
            0 <= k < self.edges@.len() && (#[trigger] self.edges@[k]).0 == i && self.edges@[k].2
                == self.best@[i]@[b] && self.solved@[self.edges@[k].1 as int]
                && self.depth_to_solution@[self.edges@[k].1 as int] + 1
                == self.depth_to_solution@[i]
    }

    /// Solved annotations are sound: the remaining depth never exceeds
    /// the horizon and is zero exactly when the robot is already
    /// outside, and every recorded best direction follows an edge to a
    /// node solved one tick closer to the exit.
    pub open spec fn solved_ok(self, g: GridView) -> bool {
        forall|i: int|
            0 <= i < self.states@.len() && #[trigger] self.solved@[i] ==> {
                &&& self.depth_to_solution@[i] <= HORIZON
                &&& (self.depth_to_solution@[i] == 0 <==> self.states@[i]@.outside)
                &&& (self.depth_to_solution@[i] > 0 ==> self.best@[i]@.len() >= 1)
                &&& (forall|b: int| 0 <= b < self.best@[i]@.len() ==> #[trigger] self.best_dir_ok(
                    i, b))
            }
    }

    /// A node holding a state whose robot is already outside is settled
    /// from the start: solved, with no remaining depth to record.
    pub open spec fn exits_settled(self) -> bool {
        forall|i: int|
            0 <= i < self.states@.len() && (#[trigger] self.states@[i])@.outside
                ==> self.solved@[i]
    }

    /// The whole cache is sound for the grid.
    pub open spec fn wf(self, g: GridView) -> bool {
        &&& self.len_ok()
        &&& self.states_ok(g)
        &&& self.edges_ok(g)
        &&& self.solved_ok(g)
        &&& self.exits_settled()
    }

    /// An empty cache, sound for any grid.
    pub fn new() -> (r: StateMemo)
        ensures
            r.states@.len() == 0,
            forall|g: GridView| r.wf(g),
    {
        StateMemo {
            states: Vec::new(),
            depth: Vec::new(),
            solved: Vec::new(),
            depth_to_solution: Vec::new(),
            best: Vec::new(),
            edges: Vec::new(),
        }
    }

    /// Finds the node holding a state's identity, if any.
    fn lookup(&self, state: &SingleMazeState) -> (r: Option<usize>)
        ensures
            r matches Some(i) ==> i < self.states@.len() && self.states@[i as int]@ == state@
                && i as int == find_node(*self, state@, 0) && (forall|j: int|
                0 <= j < i ==> (#[trigger] self.states@[j])@ != state@),
            r is None ==> forall|i: int|
                0 <= i < self.states@.len() ==> (#[trigger] self.states@[i])@ != state@,
    {
        let mut i: usize = 0;
        while i < self.states.len()
            invariant
                i <= self.states.len(),
                forall|k: int| 0 <= k < i ==> (#[trigger] self.states@[k])@ != state@,
            decreases self.states.len() - i,
        {
            if self.states[i].identity_eq(state) {
                proof {
                    lemma_find_node_at(*self, state@, i as int, 0);
                }
                return Some(i);
            }
            i += 1;
        }
        None
    }

    /// Finds the node holding a state's identity, adding one (discovered
    /// at the given depth, unsolved) when it is new.
    fn ensure_node(&mut self, state: &SingleMazeState, depth: usize, Ghost(g): Ghost<GridView>)
        -> (r: usize)
        requires
            old(self).wf(g),
            g.state_wf(state@),
        ensures
            final(self).wf(g),
            r < final(self).states@.len(),
            final(self).states@[r as int]@ == state@,
            forall|i: int|
                0 <= i < r ==> (#[trigger] final(self).states@[i])@ != state@,
            find_node(*old(self), state@, 0) >= 0 ==> *final(self) == *old(self) && r as int
                == find_node(*old(self), state@, 0),
            final(self).states@.len() >= old(self).states@.len(),
            forall|i: int|
                0 <= i < old(self).states@.len() ==> #[trigger] final(self).states@[i] == old(
                self).states@[i],
            forall|i: int|
                0 <= i < old(self).states@.len() ==> #[trigger] final(self).solved@[i] == old(
                self).solved@[i] && final(self).depth_to_solution@[i] == old(
            self).depth_to_solution@[i],
            final(self).edges@ == old(self).edges@,
    {
        match self.lookup(state) {
            Some(i) => i,
            None => {
                let i = self.states.len();
                let settled = state.robot_outside;
                self.states.push(state.duplicate());
                self.depth.push(depth);
                self.solved.push(settled);
                self.depth_to_solution.push(0);
                self.best.push(Vec::new());
                proof {
                    lemma_find_node_none(*old(self), state@, 0);
                    assert forall|i2: int| 0 <= i2 < i implies (
                    #[trigger] self.states@[i2])@ != state@ by {
                        assert(self.states@[i2] == old(self).states@[i2]);
                    }
                    assert forall|k: int| 0 <= k < self.edges@.len() implies {
                        let e = #[trigger] self.edges@[k];
                        &&& (e.0 as int) < self.states@.len()
                        &&& (e.1 as int) < self.states@.len()
                        &&& g.spec_step(self.states@[e.0 as int]@, e.2).0 == true
                        &&& g.spec_step(self.states@[e.0 as int]@, e.2).1 == self.states@[e.1
                            as int]@
                    } by {
                        assert(self.states@[self.edges@[k].0 as int] == old(self).states@[
                        self.edges@[k].0 as int]);
                        assert(self.states@[self.edges@[k].1 as int] == old(self).states@[
                        self.edges@[k].1 as int]);
                    }
                    assert(self.solved_ok(g)) by {
                        assert forall|i2: int|
                            0 <= i2 < self.states@.len() && #[trigger] self.solved@[i2] implies {
                            &&& self.depth_to_solution@[i2] <= HORIZON
                            &&& (self.depth_to_solution@[i2] == 0 <==> self.states@[i2]@.outside)
                            &&& (self.depth_to_solution@[i2] > 0 ==> self.best@[i2]@.len() >= 1)
                            &&& (forall|b: int|
                                0 <= b < self.best@[i2]@.len() ==> #[trigger] self.best_dir_ok(
                                    i2, b))
                        } by {
                            if i2 == i {
                                assert(self.states@[i2]@ == state@);
                                assert(self.depth_to_solution@[i2] == 0);
                                assert(state@.outside);
                            } else {
                            assert(i2 < old(self).states@.len());
                            assert(old(self).solved@[i2]);
                            assert(self.states@[i2] == old(self).states@[i2]);
                            assert forall|b: int| 0 <= b < self.best@[i2]@.len() implies
                                #[trigger] self.best_dir_ok(i2, b) by {
                                assert(self.best@[i2] == old(self).best@[i2]);
                                assert(old(self).best_dir_ok(i2, b));
                                let k = choose|k: int|
                                    0 <= k < old(self).edges@.len() && (#[trigger] old(
                                    self).edges@[k]).0 == i2 && old(self).edges@[k].2 == old(
                                    self).best@[i2]@[b] && old(self).solved@[old(self).edges@[
                                    k].1 as int] && old(self).depth_to_solution@[old(
                                    self).edges@[k].1 as int] + 1 == old(
                                    self).depth_to_solution@[i2];
                                assert(0 <= k < self.edges@.len() && self.edges@[k].0 == i2
                                    && self.edges@[k].2 == self.best@[i2]@[b] && self.solved@[
                                self.edges@[k].1 as int] && self.depth_to_solution@[self.edges@[
                                k].1 as int] + 1 == self.depth_to_solution@[i2]);
                            }
                            }
                        }
                    }
                    assert(self.exits_settled()) by {
                        assert forall|i2: int|
                            0 <= i2 < self.states@.len() && (#[trigger] self.states@[i2])@.outside
                            implies self.solved@[i2] by {
                            if i2 < old(self).states@.len() {
                                assert(self.states@[i2] == old(self).states@[i2]);
                                assert(old(self).solved@[i2]);
                            } else {
                                assert(self.states@[i2]@ == state@);
                            }
                        }
                    }
                }
                i
            },
        }
    }
}

impl StateMemo {
    /// All annotations except those of node `t` are unchanged, and no
    /// node lost its `solved` mark or changed its remaining depth while
    /// solved.
    pub open spec fn same_but(self, other: StateMemo, t: int) -> bool {
        &&& other.states@ == self.states@
        &&& other.edges@ == self.edges@
        &&& other.solved@.len() == self.solved@.len()
        &&& other.depth_to_solution@.len() == self.depth_to_solution@.len()
        &&& other.best@.len() == self.best@.len()
        &&& forall|i: int|
            0 <= i < self.solved@.len() && i != t ==> #[trigger] other.solved@[i]
                == self.solved@[i] && other.depth_to_solution@[i] == self.depth_to_solution@[i]
                && other.best@[i] == self.best@[i]
    }

    /// Re-establishes annotation soundness after one node's annotations
    /// changed, given that the changed node is itself sound and that it
    /// was not solved before (or kept its remaining depth).
    proof fn lemma_annotations_local(self, other: StateMemo, g: GridView, t: int)
        requires
            self.wf(g),
            self.same_but(other, t),
            0 <= t < self.states@.len() ==> {
                &&& (other.solved@[t] && self.solved@[t] ==> other.depth_to_solution@[t]
                    == self.depth_to_solution@[t])
                &&& (other.solved@[t] ==> other.depth_to_solution@[t] <= HORIZON)
                &&& (other.solved@[t] ==> (other.depth_to_solution@[t] == 0
                    <==> other.states@[t]@.outside))
                &&& (other.solved@[t] ==> (other.depth_to_solution@[t] > 0
                    ==> other.best@[t]@.len() >= 1))
                &&& (other.solved@[t] ==> forall|b: int|
                    0 <= b < other.best@[t]@.len() ==> #[trigger] other.best_dir_ok(t, b))
                &&& (self.solved@[t] ==> other.solved@[t])
            },
        ensures
            other.solved_ok(g),
            other.exits_settled(),
    {
        assert forall|i2: int|
            0 <= i2 < other.states@.len() && (#[trigger] other.states@[i2])@.outside implies
            other.solved@[i2] by {
            assert(self.states@[i2] == other.states@[i2]);
            assert(self.solved@[i2]);
            if i2 != t {
                assert(other.solved@[i2] == self.solved@[i2]);
            }
        }
        assert forall|i2: int|
            0 <= i2 < other.states@.len() && #[trigger] other.solved@[i2] implies {
            &&& other.depth_to_solution@[i2] <= HORIZON
            &&& (other.depth_to_solution@[i2] == 0 <==> other.states@[i2]@.outside)
            &&& (other.depth_to_solution@[i2] > 0 ==> other.best@[i2]@.len() >= 1)
            &&& (forall|b: int|
                0 <= b < other.best@[i2]@.len() ==> #[trigger] other.best_dir_ok(i2, b))
        } by {
            if i2 != t {
                assert(self.solved@[i2]);
                assert forall|b: int| 0 <= b < other.best@[i2]@.len() implies
                    #[trigger] other.best_dir_ok(i2, b) by {
                    assert(self.best_dir_ok(i2, b));
                    let k = choose|k: int|
                        0 <= k < self.edges@.len() && (#[trigger] self.edges@[k]).0 == i2
                            && self.edges@[k].2 == self.best@[i2]@[b] && self.solved@[self.edges@[
                        k].1 as int] && self.depth_to_solution@[self.edges@[k].1 as int] + 1
                            == self.depth_to_solution@[i2];
                    let c = self.edges@[k].1 as int;
                    assert(other.solved@[c]);
                    assert(other.depth_to_solution@[c] == self.depth_to_solution@[c]);
                    assert(0 <= k < other.edges@.len() && other.edges@[k].0 == i2
                        && other.edges@[k].2 == other.best@[i2]@[b] && other.solved@[other.edges@[
                    k].1 as int] && other.depth_to_solution@[other.edges@[k].1 as int] + 1
                        == other.depth_to_solution@[i2]);
                }
            }
        }
    }

    /// Records one legal transition as an edge.
    fn add_edge(&mut self, from: usize, to: usize, d: Direction, Ghost(g): Ghost<GridView>)
        requires
            old(self).wf(g),
            from < old(self).states@.len(),
            to < old(self).states@.len(),
            g.spec_step(old(self).states@[from as int]@, d).0 == true,
            g.spec_step(old(self).states@[from as int]@, d).1 == old(self).states@[to as int]@,
        ensures
            final(self).wf(g),
            final(self).states@ == old(self).states@,
            final(self).solved@ == old(self).solved@,
            final(self).depth_to_solution@ == old(self).depth_to_solution@,
            final(self).best@ == old(self).best@,
            final(self).depth@ == old(self).depth@,
            final(self).edges@ == old(self).edges@.push((from, to, d)),
    {
        self.edges.push((from, to, d));
        proof {
            assert forall|k: int| 0 <= k < self.edges@.len() implies {
                let e = #[trigger] self.edges@[k];
                &&& (e.0 as int) < self.states@.len()
                &&& (e.1 as int) < self.states@.len()
                &&& g.spec_step(self.states@[e.0 as int]@, e.2).0 == true
                &&& g.spec_step(self.states@[e.0 as int]@, e.2).1 == self.states@[e.1 as int]@
            } by {
                if k < old(self).edges@.len() {
                    assert(self.edges@[k] == old(self).edges@[k]);
                } else {
                    assert(self.edges@[k] == (from, to, d));
                }
            }
            assert(self.solved_ok(g)) by {
                assert forall|i2: int|
                    0 <= i2 < self.states@.len() && #[trigger] self.solved@[i2] implies {
                    &&& self.depth_to_solution@[i2] <= HORIZON
                    &&& (self.depth_to_solution@[i2] == 0 <==> self.states@[i2]@.outside)
                    &&& (self.depth_to_solution@[i2] > 0 ==> self.best@[i2]@.len() >= 1)
                    &&& (forall|b: int|
                        0 <= b < self.best@[i2]@.len() ==> #[trigger] self.best_dir_ok(i2, b))
                } by {
                    assert(old(self).solved@[i2]);
                    assert forall|b: int| 0 <= b < self.best@[i2]@.len() implies
                        #[trigger] self.best_dir_ok(i2, b) by {
                        assert(old(self).best_dir_ok(i2, b));
                        let k = choose|k: int|
                            0 <= k < old(self).edges@.len() && (#[trigger] old(self).edges@[k]).0
                                == i2 && old(self).edges@[k].2 == old(self).best@[i2]@[b] && old(
                            self).solved@[old(self).edges@[k].1 as int] && old(
                            self).depth_to_solution@[old(self).edges@[k].1 as int] + 1 == old(
                            self).depth_to_solution@[i2];
                        assert(self.edges@[k] == old(self).edges@[k]);
                        assert(0 <= k < self.edges@.len() && self.edges@[k].0 == i2
                            && self.edges@[k].2 == self.best@[i2]@[b] && self.solved@[self.edges@[
                        k].1 as int] && self.depth_to_solution@[self.edges@[k].1 as int] + 1
                            == self.depth_to_solution@[i2]);
                    }
                }
            }
            assert(self.exits_settled()) by {
                assert forall|i2: int|
                    0 <= i2 < self.states@.len() && (#[trigger] self.states@[i2])@.outside implies
                    self.solved@[i2] by {
                    assert(old(self).states@[i2]@.outside);
                    assert(old(self).solved@[i2]);
                }
            }
        }
    }

    /// Marks node `p` solved through edge `k`: one tick more than the
    /// edge's target, which is already solved.
    fn mark_solved_via(&mut self, p: usize, k: usize, ndts: usize, Ghost(g): Ghost<GridView>)
        requires
            old(self).wf(g),
            p < old(self).states@.len(),
            !old(self).solved@[p as int],
            !old(self).states@[p as int]@.outside,
            k < old(self).edges@.len(),
            old(self).edges@[k as int].0 == p,
            old(self).solved@[old(self).edges@[k as int].1 as int],
            ndts == old(self).depth_to_solution@[old(self).edges@[k as int].1 as int] + 1,
            ndts <= HORIZON,
        ensures
            final(self).wf(g),
            final(self).states@ == old(self).states@,
            final(self).edges@ == old(self).edges@,
            final(self).depth@ == old(self).depth@,
            final(self).solved@ == old(self).solved@.update(p as int, true),
            final(self).depth_to_solution@[p as int] == ndts,
            old(self).same_but(*final(self), p as int),
    {
        let d = self.edges[k].2;
        self.solved.set(p, true);
        self.depth_to_solution.set(p, ndts);
        let mut one: Vec<Direction> = Vec::new();
        one.push(d);
        self.best.set(p, one);
        proof {
            assert(old(self).same_but(*self, p as int));
            let c = self.edges@[k as int].1 as int;
            assert(c != p as int);
            assert forall|b: int| 0 <= b < self.best@[p as int]@.len() implies
                #[trigger] self.best_dir_ok(p as int, b) by {
                assert(self.best@[p as int]@[b] == d);
                assert(0 <= k < self.edges@.len() && self.edges@[k as int].0 == p as int
                    && self.edges@[k as int].2 == self.best@[p as int]@[b] && self.solved@[
                self.edges@[k as int].1 as int] && self.depth_to_solution@[self.edges@[
                k as int].1 as int] + 1 == self.depth_to_solution@[p as int]);
            }
            old(self).lemma_annotations_local(*self, g, p as int);
        }
    }

    /// Adds one more best direction to an already solved node `p`, via
    /// edge `k` whose solved target also lies one tick closer.
    fn add_best_via(&mut self, p: usize, k: usize, Ghost(g): Ghost<GridView>)
        requires
            old(self).wf(g),
            p < old(self).states@.len(),
            old(self).solved@[p as int],
            k < old(self).edges@.len(),
            old(self).edges@[k as int].0 == p,
            old(self).solved@[old(self).edges@[k as int].1 as int],
            old(self).depth_to_solution@[old(self).edges@[k as int].1 as int] + 1 == old(
            self).depth_to_solution@[p as int],
        ensures
            final(self).wf(g),
            final(self).states@ == old(self).states@,
            final(self).edges@ == old(self).edges@,
            final(self).depth@ == old(self).depth@,
            final(self).solved@ == old(self).solved@,
            final(self).depth_to_solution@ == old(self).depth_to_solution@,
            old(self).same_but(*final(self), p as int),
    {
        let d = self.edges[k].2;
        let ghost oldbest = self.best@[p as int]@;
        let mut grown: Vec<Direction> = crate::singlemaze::clone_dirs(&self.best[p]);
        grown.push(d);
        self.best.set(p, grown);
        proof {
            assert(old(self).same_but(*self, p as int));
            assert forall|b: int| 0 <= b < self.best@[p as int]@.len() implies
                #[trigger] self.best_dir_ok(p as int, b) by {
                if b < oldbest.len() {
                    assert(self.best@[p as int]@[b] == oldbest[b]);
                    assert(old(self).best_dir_ok(p as int, b));
                    let k2 = choose|k2: int|
                        0 <= k2 < old(self).edges@.len() && (#[trigger] old(self).edges@[k2]).0
                            == p as int && old(self).edges@[k2].2 == old(self).best@[p as int]@[b]
                            && old(self).solved@[old(self).edges@[k2].1 as int] && old(
                        self).depth_to_solution@[old(self).edges@[k2].1 as int] + 1 == old(
                        self).depth_to_solution@[p as int];
                    assert(0 <= k2 < self.edges@.len() && self.edges@[k2].0 == p as int
                        && self.edges@[k2].2 == self.best@[p as int]@[b] && self.solved@[
                    self.edges@[k2].1 as int] && self.depth_to_solution@[self.edges@[k2].1
                        as int] + 1 == self.depth_to_solution@[p as int]);
                } else {
                    assert(self.best@[p as int]@[b] == d);
                    assert(0 <= k < self.edges@.len() && self.edges@[k as int].0 == p as int
                        && self.edges@[k as int].2 == self.best@[p as int]@[b] && self.solved@[
                    self.edges@[k as int].1 as int] && self.depth_to_solution@[self.edges@[
                    k as int].1 as int] + 1 == self.depth_to_solution@[p as int]);
                }
            }
            old(self).lemma_annotations_local(*self, g, p as int);
        }
    }

    /// Whether a node index was already collected.
    fn contains_idx(indices: &Vec<usize>, x: usize) -> (r: bool)
        ensures
            r == indices@.contains(x),
    {
        let mut i: usize = 0;
        while i < indices.len()
            invariant
                i <= indices.len(),
                forall|k: int| 0 <= k < i ==> #[trigger] indices@[k] != x,
            decreases indices.len() - i,
        {
            if indices[i] == x {
                return true;
            }
            i += 1;
        }
        proof {
            if indices@.contains(x) {
                let k = choose|k: int| 0 <= k < indices@.len() && indices@[k] == x;
                assert(indices@[k] != x);
            }
        }
        false
    }

    /// Whether a direction was already collected.
    fn contains_dir(dirs: &Vec<Direction>, d: Direction) -> (r: bool)
        ensures
            r == dirs@.contains(d),
    {
        let mut i: usize = 0;
        while i < dirs.len()
            invariant
                i <= dirs.len(),
                forall|k: int| 0 <= k < i ==> #[trigger] dirs@[k] != d,
            decreases dirs.len() - i,
        {
            if dirs[i] == d {
                return true;
            }
            i += 1;
        }
        proof {
            if dirs@.contains(d) {
                let k = choose|k: int| 0 <= k < dirs@.len() && dirs@[k] == d;
                assert(dirs@[k] != d);
            }
        }
        false
    }

    /// Finds a recorded edge leaving `idx` with direction `d`, if any.
    fn find_edge_from(&self, idx: usize, d: Direction) -> (r: Option<usize>)
        ensures
            r matches Some(k) ==> k < self.edges@.len() && self.edges@[k as int].0 == idx
                && self.edges@[k as int].2 == d,
            r is None ==> forall|k: int|
                0 <= k < self.edges@.len() ==> !((#[trigger] self.edges@[k]).0 == idx
                    && self.edges@[k].2 == d),
    {
        let mut k: usize = 0;
        while k < self.edges.len()
            invariant
                k <= self.edges.len(),
                forall|k2: int|
                    0 <= k2 < k ==> !((#[trigger] self.edges@[k2]).0 == idx && self.edges@[k2].2
                        == d),
            decreases self.edges.len() - k,
        {
            let (from, _tgt, dir) = self.edges[k];
            if from == idx && dir == d {
                return Some(k);
            }
            k += 1;
        }
        None
    }

    /// Records a node's discovery depth for the current search session.
    fn set_depth(&mut self, t: usize, depth: usize, Ghost(g): Ghost<GridView>)
        requires
            old(self).wf(g),
            t < old(self).states@.len(),
        ensures
            final(self).wf(g),
            final(self).states@ == old(self).states@,
            final(self).edges@ == old(self).edges@,
            final(self).solved@ == old(self).solved@,
            final(self).depth_to_solution@ == old(self).depth_to_solution@,
            final(self).best@ == old(self).best@,
    {
        self.depth.set(t, depth);
        proof {
            assert(old(self).same_but(*self, -1));
            old(self).lemma_annotations_local(*self, g, -1);
        }
    }
}

/// Every recorded edge leaving `idx` contributes its entry to the
/// query's answer.
proof fn lemma_recorded_contains(memo: StateMemo, idx: int, j: int, k: int)
    requires
        0 <= j <= k < memo.edges@.len(),
        memo.edges@[k].0 == idx,
    ensures
        recorded_moves(memo, idx, j).contains(move_of_edge(memo, idx, k)),
    decreases k - j,
{
    if j == k {
        assert(recorded_moves(memo, idx, j)[0] == move_of_edge(memo, idx, k));
    } else {
        lemma_recorded_contains(memo, idx, j + 1, k);
        let rest = recorded_moves(memo, idx, j + 1);
        let i = choose|i: int| 0 <= i < rest.len() && rest[i] == move_of_edge(memo, idx, k);
        if memo.edges@[j].0 == idx {
            assert(recorded_moves(memo, idx, j)[i + 1] == rest[i]);
        }
    }
}

/// Every element of a query's answer is the entry of some recorded edge.
pub proof fn lemma_recorded_element(memo: StateMemo, idx: int, k: int, x: int)
    requires
        0 <= k,
        0 <= x < recorded_moves(memo, idx, k).len(),
    ensures
        exists|k2: int|
            k <= k2 < memo.edges@.len() && (#[trigger] memo.edges@[k2]).0 == idx
                && recorded_moves(memo, idx, k)[x] == move_of_edge(memo, idx, k2),
    decreases memo.edges@.len() - k,
{
    if memo.edges@[k].0 == idx {
        if x == 0 {
            assert(recorded_moves(memo, idx, k)[0] == move_of_edge(memo, idx, k));
        } else {
            lemma_recorded_element(memo, idx, k + 1, x - 1);
            let rest = recorded_moves(memo, idx, k + 1);
            assert(recorded_moves(memo, idx, k)[x] == rest[x - 1]);
        }
    } else {
        lemma_recorded_element(memo, idx, k + 1, x);
    }
}

/// Some returned entry carries the direction `d`.
pub open spec fn dir_present(ms: Seq<(Direction, bool, usize, SingleMazeState)>, d: Direction) -> bool {
    exists|x: int| 0 <= x < ms.len() && (#[trigger] ms[x]).0 == d
}

/// Every direction that escapes in one tick — any direction at all for
/// a state already outside, an exit bond otherwise — has an entry in
/// the answer.
pub open spec fn escape_dirs_present(
    g: GridView,
    s: crate::singlemaze::StateView,
    ms: Seq<(Direction, bool, usize, SingleMazeState)>,
) -> bool {
    forall|d: Direction| (s.outside || g.has_exit(s.robot, d)) ==> #[trigger] dir_present(ms, d)
}

/// Every returned entry whose next state is outside carries a remaining
/// depth of zero.
pub open spec fn outside_moves_settled(ms: Seq<(Direction, bool, usize, SingleMazeState)>) -> bool {
    forall|x: int| 0 <= x < ms.len() && (#[trigger] ms[x]).3@.outside ==> ms[x].2 == 0
}

/// Every returned move is a legal transition from `s`, leading exactly
/// to the returned state, with a clamped remaining-depth annotation.
pub open spec fn moves_ok(
    g: GridView,
    s: crate::singlemaze::StateView,
    ms: Seq<(Direction, bool, usize, SingleMazeState)>,
) -> bool {
    forall|k: int|
        0 <= k < ms.len() ==> {
            let e = #[trigger] ms[k];
            &&& g.spec_step(s, e.0).0 == true
            &&& g.spec_step(s, e.0).1 == e.3@
            &&& g.state_wf(e.3@)
            &&& e.2 <= HORIZON + 1
        }
}

/// Law: the cache's annotations speak the truth.  From the state of any
/// solved node, some move sequence of exactly the annotated remaining
/// depth — never more than the horizon — legally takes the robot
/// outside: following a best direction leads to a node solved one tick
/// closer, down to an exit state.
pub proof fn lemma_solved_reaches_exit(memo: StateMemo, g: GridView, i: int)
    requires
        memo.wf(g),
        0 <= i < memo.states@.len(),
        memo.solved@[i],
    ensures
        memo.depth_to_solution@[i] <= HORIZON,
        escapes_in(g, memo.states@[i]@, memo.depth_to_solution@[i] as int),
    decreases memo.depth_to_solution@[i],
{
    let s = memo.states@[i]@;
    let dts = memo.depth_to_solution@[i] as int;
    if dts == 0 {
        let q = Seq::<Direction>::empty();
        assert(single_replay(g, s, q) == Some(s));
        assert(s.outside);
    } else {
        assert(memo.best@[i]@.len() >= 1);
        assert(memo.best_dir_ok(i, 0));
        let k = choose|k: int|
            0 <= k < memo.edges@.len() && (#[trigger] memo.edges@[k]).0 == i && memo.edges@[k].2
                == memo.best@[i]@[0] && memo.solved@[memo.edges@[k].1 as int]
                && memo.depth_to_solution@[memo.edges@[k].1 as int] + 1
                == memo.depth_to_solution@[i];
        let c = memo.edges@[k].1 as int;
        let d = memo.edges@[k].2;
        lemma_solved_reaches_exit(memo, g, c);
        let sc = memo.states@[c]@;
        let q2 = choose|q2: Seq<Direction>|
            q2.len() == dts - 1 && ((#[trigger] single_replay(g, sc, q2))
                matches Some(t) && t.outside);
        let q = seq![d] + q2;
        assert(q[0] == d);
        assert(q.skip(1) =~= q2);
        assert(g.spec_step(s, d).0 && g.spec_step(s, d).1 == sc);
        assert(single_replay(g, s, q) == single_replay(
            g,
            sc,
            q2,
        ));
    }
}

/// Law: the cache never lies about hopeless states.  A node whose state
/// has no escape within the horizon is never marked solved, so queries
/// on it report no best directions and callers prune the branch.
pub proof fn lemma_hopeless_stays_unsolved(memo: StateMemo, g: GridView, i: int)
    requires
        memo.wf(g),
        0 <= i < memo.states@.len(),
        forall|k: int| 0 <= k <= HORIZON ==> !escapes_in(g, memo.states@[i]@, k),
    ensures
        !memo.solved@[i],
{
    if memo.solved@[i] {
        lemma_solved_reaches_exit(memo, g, i);
        assert(!escapes_in(g, memo.states@[i]@, memo.depth_to_solution@[i] as int));
    }
}

/// Every index in the list addresses a node of the cache.
pub open spec fn indices_ok(indices: Seq<usize>, memo: StateMemo) -> bool {
    forall|i: int| 0 <= i < indices.len() ==> (#[trigger] indices[i] as int) < memo.states@.len()
}

/// Every index in the list addresses a solved node.
pub open spec fn indices_solved(indices: Seq<usize>, memo: StateMemo) -> bool {
    forall|i: int|
        0 <= i < indices.len() ==> (#[trigger] indices[i] as int) < memo.states@.len()
            && memo.solved@[indices[i] as int]
}

impl SingleMaze {
    /// Fills the cache from one node: a breadth-first exploration of the
    /// grid's state graph bounded at the horizon, stopped at the first
    /// layer that discovers exit states or previously solved nodes,
    /// followed by a backward relaxation that annotates each reached
    /// node with a remaining depth and the directions that open an
    /// escape of that depth.  The cache invariant keeps every annotation
    /// sound and within the horizon (`lemma_solved_reaches_exit`,
    /// `lemma_hopeless_stays_unsolved`); the recorded depths are not
    /// proved minimal, since relaxation reuses depths from earlier
    /// queries of the same session.
    fn solve(&self, memo: &mut StateMemo, start: usize)
        requires
            self@.wf(),
            old(memo).wf(self@),
            start < old(memo).states@.len(),
        ensures
            final(memo).wf(self@),
            final(memo).states@.len() >= old(memo).states@.len(),
            forall|i: int|
                0 <= i < old(memo).states@.len() ==> #[trigger] final(memo).states@[i] == old(
                memo).states@[i],
    {
        let ghost g = self@;
        let ghost n0 = memo.states@.len();
        memo.set_depth(start, 0, Ghost(g));
        let mut frontier: Vec<usize> = Vec::new();
        frontier.push(start);
        let mut seen: Vec<usize> = Vec::new();
        seen.push(start);
        let mut seeds: Vec<usize> = Vec::new();
        let mut layer: usize = 0;
        while layer < HORIZON && frontier.len() > 0 && seeds.len() == 0
            invariant
                self@ == g,
                g.wf(),
                memo.wf(g),
                layer <= HORIZON,
                memo.states@.len() >= n0,
                forall|i: int|
                    0 <= i < n0 ==> #[trigger] memo.states@[i] == old(memo).states@[i],
                n0 == old(memo).states@.len(),
                indices_ok(frontier@, *memo),
                indices_solved(seeds@, *memo),
            decreases HORIZON - layer,
        {
            layer += 1;
            let mut next_frontier: Vec<usize> = Vec::new();
            let mut fi: usize = 0;
            while fi < frontier.len()
                invariant
                    self@ == g,
                    g.wf(),
                    memo.wf(g),
                    layer <= HORIZON,
                    fi <= frontier.len(),
                    memo.states@.len() >= n0,
                    forall|i: int|
                        0 <= i < n0 ==> #[trigger] memo.states@[i] == old(memo).states@[i],
                    n0 == old(memo).states@.len(),
                    indices_ok(frontier@, *memo),
                    indices_ok(next_frontier@, *memo),
                    indices_solved(seeds@, *memo),
                decreases frontier.len() - fi,
            {
                let idx = frontier[fi];
                let st = memo.states[idx].duplicate();
                if st.robot_outside {
                    if !StateMemo::contains_idx(&seeds, idx) {
                        seeds.push(idx);
                    }
                } else if !memo.solved[idx] {
                    let mut j: usize = 0;
                    while j < 4
                        invariant
                            self@ == g,
                            g.wf(),
                            memo.wf(g),
                            layer <= HORIZON,
                            j <= 4,
                            idx < memo.states@.len(),
                            st@ == memo.states@[idx as int]@,
                            g.state_wf(st@),
                            memo.states@.len() >= n0,
                            forall|i: int|
                                0 <= i < n0 ==> #[trigger] memo.states@[i] == old(
                                memo).states@[i],
                            n0 == old(memo).states@.len(),
                            indices_ok(frontier@, *memo),
                            indices_ok(next_frontier@, *memo),
                            indices_solved(seeds@, *memo),
                        decreases 4 - j,
                    {
                        let d = match j {
                            0 => Direction::North,
                            1 => Direction::East,
                            2 => Direction::South,
                            _ => Direction::West,
                        };
                        let (ok, ns) = self.step(&st, d);
                        if ok {
                            let t = memo.ensure_node(&ns, layer, Ghost(g));
                            proof {
                                assert(memo.states@[idx as int]@ == st@);
                            }
                            memo.add_edge(idx, t, d, Ghost(g));
                            if ns.robot_outside {
                                if !StateMemo::contains_idx(&seeds, t) {
                                    seeds.push(t);
                                }
                            } else if memo.solved[t] {
                                // This state already carries annotations from an
                                // earlier session: relax from here rather than
                                // exploring past it again.
                                if !StateMemo::contains_idx(&seeds, t) {
                                    seeds.push(t);
                                }
                            } else if !StateMemo::contains_idx(&seen, t) {
                                seen.push(t);
                                memo.set_depth(t, layer, Ghost(g));
                                next_frontier.push(t);
                            }
                        }
                        j += 1;
                    }
                }
                fi += 1;
            }
            frontier = next_frontier;
        }
        // Backward relaxation from the discovered exit states and the
        // previously solved states the exploration touched.
        let mut wave: Vec<usize> = seeds;
        let bound = memo.states.len();
        let mut w: usize = 0;
        while w < bound && wave.len() > 0
            invariant
                self@ == g,
                g.wf(),
                memo.wf(g),
                w <= bound,
                memo.states@.len() >= n0,
                forall|i: int|
                    0 <= i < n0 ==> #[trigger] memo.states@[i] == old(memo).states@[i],
                n0 == old(memo).states@.len(),
                indices_solved(wave@, *memo),
            decreases bound - w,
        {
            w += 1;
            let mut next_wave: Vec<usize> = Vec::new();
            let mut wi: usize = 0;
            while wi < wave.len()
                invariant
                    self@ == g,
                    g.wf(),
                    memo.wf(g),
                    wi <= wave.len(),
                    memo.states@.len() >= n0,
                    forall|i: int|
                        0 <= i < n0 ==> #[trigger] memo.states@[i] == old(memo).states@[i],
                    n0 == old(memo).states@.len(),
                    indices_solved(wave@, *memo),
                    indices_solved(next_wave@, *memo),
                decreases wave.len() - wi,
            {
                let c = wave[wi];
                let cd = memo.depth[c];
                let mut k: usize = 0;
                while k < memo.edges.len()
                    invariant
                        self@ == g,
                        g.wf(),
                        memo.wf(g),
                        k <= memo.edges@.len(),
                        c < memo.states@.len(),
                        memo.solved@[c as int],
                        memo.states@.len() >= n0,
                        forall|i: int|
                            0 <= i < n0 ==> #[trigger] memo.states@[i] == old(memo).states@[i],
                        n0 == old(memo).states@.len(),
                        indices_solved(wave@, *memo),
                        indices_solved(next_wave@, *memo),
                    decreases memo.edges@.len() - k,
                {
                    let (p, tgt, _d) = memo.edges[k];
                    if tgt == c && memo.depth[p] < cd {
                        let cdts = memo.depth_to_solution[c];
                        if !memo.solved[p] {
                            // A node already outside is terminal, and
                            // remaining depths past the horizon are never
                            // recorded: such states stay unsolved.
                            if !memo.states[p].robot_outside && cdts < HORIZON {
                                memo.mark_solved_via(p, k, cdts + 1, Ghost(g));
                                next_wave.push(p);
                            }
                        } else {
                            let pdts = memo.depth_to_solution[p];
                            if pdts >= 1 && pdts - 1 == cdts {
                                memo.add_best_via(p, k, Ghost(g));
                            }
                        }
                    }
                    k += 1;
                }
                wi += 1;
            }
            wave = next_wave;
        }
    }


    /// Records the queried node's own exit bonds and settles the node
    /// when it has one: an exit bond is a one-tick escape.  Every other
    /// node and every existing annotation is left alone.
    fn settle_exits(&self, memo: &mut StateMemo, start: usize)
        requires
            self@.wf(),
            old(memo).wf(self@),
            start < old(memo).states@.len(),
            !old(memo).states@[start as int]@.outside,
        ensures
            final(memo).wf(self@),
            final(memo).states@.len() >= old(memo).states@.len(),
            forall|i: int|
                0 <= i < old(memo).states@.len() ==> #[trigger] final(memo).states@[i] == old(
                memo).states@[i],
            forall|d: Direction|
                #[trigger] self@.has_exit(old(memo).states@[start as int]@.robot, d) ==> exists|
                    k: int|
                    0 <= k < final(memo).edges@.len() && (#[trigger] final(memo).edges@[k]).0
                        == start && final(memo).edges@[k].2 == d,
            (exists|d: Direction|
                self@.has_exit(old(memo).states@[start as int]@.robot, d)) ==> final(
            memo).solved@[start as int],
            old(memo).solved@[start as int] && (forall|d: Direction|
                #[trigger] self@.has_exit(old(memo).states@[start as int]@.robot, d) ==> exists|
                    k: int|
                    0 <= k < old(memo).edges@.len() && (#[trigger] old(memo).edges@[k]).0 == start
                        && old(memo).edges@[k].2 == d) ==> *final(memo) == *old(memo),
    {
        let ghost g = self@;
        let ghost n0 = memo.states@.len();
        let ghost settled0 = old(memo).solved@[start as int] && (forall|d: Direction|
            #[trigger] g.has_exit(old(memo).states@[start as int]@.robot, d) ==> exists|k: int|
                0 <= k < old(memo).edges@.len() && (#[trigger] old(memo).edges@[k]).0 == start
                    && old(memo).edges@[k].2 == d);
        // The queried node's own exit bonds are always recorded, and any
        // one of them settles the node: the robot escapes in one tick.
        let s0 = memo.states[start].duplicate();
        let ghost sv = old(memo).states@[start as int]@;
        proof {
            assert(s0@ == sv);
        }
        let mut j: usize = 0;
        while j < 4
            invariant
                self@ == g,
                g.wf(),
                memo.wf(g),
                j <= 4,
                start < n0,
                memo.states@.len() >= n0,
                forall|i: int|
                    0 <= i < n0 ==> #[trigger] memo.states@[i] == old(memo).states@[i],
                n0 == old(memo).states@.len(),
                s0@ == sv,
                memo.states@[start as int]@ == sv,
                !sv.outside,
                g.state_wf(sv),
                forall|jj: int|
                    0 <= jj < j && g.has_exit(sv.robot, #[trigger] dir_order()[jj]) ==> exists|
                        k: int|
                        0 <= k < memo.edges@.len() && (#[trigger] memo.edges@[k]).0 == start
                            && memo.edges@[k].2 == dir_order()[jj],
                (exists|jj: int| 0 <= jj < j && g.has_exit(sv.robot, #[trigger] dir_order()[jj]))
                    ==> memo.solved@[start as int],
                settled0 == (old(memo).solved@[start as int] && (forall|d: Direction|
                    #[trigger] g.has_exit(old(memo).states@[start as int]@.robot, d) ==> exists|
                        k: int|
                        0 <= k < old(memo).edges@.len() && (#[trigger] old(memo).edges@[k]).0
                            == start && old(memo).edges@[k].2 == d)),
                sv == old(memo).states@[start as int]@,
                settled0 ==> *memo == *old(memo),
            decreases 4 - j,
        {
            let d = match j {
                0 => Direction::North,
                1 => Direction::East,
                2 => Direction::South,
                _ => Direction::West,
            };
            proof {
                assert(d == dir_order()[j as int]);
            }
            let ghost edges0 = memo.edges@;
            if self.find_exit(s0.robot_position, d) {
                let k: usize = match memo.find_edge_from(start, d) {
                    Some(k) => k,
                    None => {
                        proof {
                            assert(!settled0) by {
                                if settled0 {
                                    assert(g.has_exit(sv.robot, d));
                                    let k0 = choose|k0: int|
                                        0 <= k0 < old(memo).edges@.len() && (#[trigger] old(
                                        memo).edges@[k0]).0 == start && old(memo).edges@[k0].2
                                            == d;
                                    assert(memo.edges@[k0].0 == start && memo.edges@[k0].2 == d);
                                }
                            }
                        }
                        let (ok, ns) = self.step(&s0, d);
                        proof {
                            assert(ok);
                        }
                        let t = memo.ensure_node(&ns, 1, Ghost(g));
                        let kk = memo.edges.len();
                        memo.add_edge(start, t, d, Ghost(g));
                        proof {
                            assert(memo.edges@[kk as int] == (start, t, d));
                        }
                        kk
                    },
                };
                proof {
                    assert(memo.edges@[k as int].0 == start && memo.edges@[k as int].2 == d);
                }
                if !memo.solved[start] {
                    proof {
                        let t2 = memo.edges@[k as int].1 as int;
                        assert(g.spec_step(memo.states@[start as int]@, d).1
                            == memo.states@[t2]@);
                        assert(memo.states@[t2]@.outside);
                        assert(memo.solved@[t2]);
                        assert(memo.depth_to_solution@[t2] == 0);
                    }
                    memo.mark_solved_via(start, k, 1, Ghost(g));
                }
                proof {
                    assert(memo.solved@[start as int]);
                    assert forall|jj: int|
                        0 <= jj < j + 1 && g.has_exit(sv.robot, #[trigger] dir_order()[jj])
                        implies exists|k2: int|
                        0 <= k2 < memo.edges@.len() && (#[trigger] memo.edges@[k2]).0 == start
                            && memo.edges@[k2].2 == dir_order()[jj] by {
                        if jj < j {
                            let k2 = choose|k2: int|
                                0 <= k2 < edges0.len() && (#[trigger] edges0[k2]).0 == start
                                    && edges0[k2].2 == dir_order()[jj];
                            assert(memo.edges@[k2] == edges0[k2]);
                        } else {
                            assert(memo.edges@[k as int].0 == start && memo.edges@[k as int].2
                                == dir_order()[jj]);
                        }
                    }
                }
            }
            j += 1;
        }
        proof {
            assert forall|d: Direction| #[trigger] g.has_exit(sv.robot, d) implies exists|k: int|
                0 <= k < memo.edges@.len() && (#[trigger] memo.edges@[k]).0 == start
                    && memo.edges@[k].2 == d by {
                lemma_dir_indexed(d);
                let jj = choose|jj: int| 0 <= jj < 4 && dir_order()[jj] == d;
                assert(g.has_exit(sv.robot, dir_order()[jj]));
            }
            if exists|d: Direction| g.has_exit(sv.robot, d) {
                let d = choose|d: Direction| g.has_exit(sv.robot, d);
                lemma_dir_indexed(d);
                let jj = choose|jj: int| 0 <= jj < 4 && dir_order()[jj] == d;
                assert(g.has_exit(sv.robot, dir_order()[jj]));
            }
        }
    }

    /// Answers, for a previously reached or fresh state, which moves the
    /// grid allows from it, which of them the cache records as opening
    /// an escape path, and how deep the exit then still is.  Each
    /// returned entry `(direction, is_best, remaining, next_state)`
    /// carries a legal move: the transition rule maps the queried state
    /// under `direction` to exactly `next_state`.
    ///
    /// The answer is pinned to the cache: a state already outside
    /// returns exactly the four directions, each best, frozen, with no
    /// remaining depth, and leaves the cache untouched; a state whose
    /// node ends up solved returns exactly one entry per recorded edge
    /// leaving it, in edge order (`recorded_moves`); a state whose node
    /// stays unsolved returns no entries — and a state with no escape
    /// within the horizon always stays unsolved
    /// (`lemma_hopeless_stays_unsolved`), so hopeless branches are
    /// always pruned.  A repeated query for a state whose node is
    /// already solved leaves the cache exactly as it was, so it returns
    /// the same entries again.  The `is_best` and `remaining`
    /// annotations come from the backward relaxation: every best
    /// direction truly opens an escape of the annotated depth
    /// (`lemma_solved_reaches_exit`), but the depths are not proved
    /// minimal, and directions the relaxation did not reach may go
    /// unmarked.
    pub fn next_moves(&self, memo: &mut StateMemo, state: &SingleMazeState) -> (r: Vec<
        (Direction, bool, usize, SingleMazeState),
    >)
        requires
            self@.wf(),
            old(memo).wf(self@),
            self@.state_wf(state@),
        ensures
            final(memo).wf(self@),
            moves_ok(self@, state@, r@),
            state@.outside ==> moves_view(r@) == frozen_moves(state@) && *final(memo) == *old(
                memo,
            ),
            !state@.outside ==> ({
                let idx = find_node(*final(memo), state@, 0);
                &&& 0 <= idx < final(memo).states@.len()
                &&& final(memo).states@[idx]@ == state@
                &&& (final(memo).solved@[idx] && final(memo).best@[idx]@.len() > 0
                    ==> moves_view(r@) == recorded_moves(*final(memo), idx, 0))
                &&& (!(final(memo).solved@[idx] && final(memo).best@[idx]@.len() > 0) ==> r@.len()
                    == 0)
            }),
            escape_dirs_present(self@, state@, r@),
            outside_moves_settled(r@),
            !state@.outside && find_node(*old(memo), state@, 0) >= 0 && old(memo).solved@[
                find_node(*old(memo), state@, 0)] && (forall|d: Direction|
                #[trigger] self@.has_exit(state@.robot, d) ==> exists|k: int|
                    0 <= k < old(memo).edges@.len() && (#[trigger] old(memo).edges@[k]).0
                        == find_node(*old(memo), state@, 0) && old(memo).edges@[k].2 == d)
                ==> *final(memo) == *old(memo),
            r@.len() > 0 ==> exists|k: int| 0 <= k <= HORIZON && escapes_in(self@, state@, k),
    {
        let ghost g = self@;
        let mut r: Vec<(Direction, bool, usize, SingleMazeState)> = Vec::new();
        if state.robot_outside {
            let mut j: usize = 0;
            while j < 4
                invariant
                    g == self@,
                    state@.outside,
                    g.state_wf(state@),
                    j <= 4,
                    moves_view(r@) == frozen_moves(state@).take(j as int),
                    moves_ok(g, state@, r@),
                decreases 4 - j,
            {
                let d = match j {
                    0 => Direction::North,
                    1 => Direction::East,
                    2 => Direction::South,
                    _ => Direction::West,
                };
                proof {
                    assert(d == dir_order()[j as int]);
                }
                let ghost before = moves_view(r@);
                r.push((d, true, 0, state.duplicate()));
                proof {
                    assert(moves_view(r@) =~= before.push(frozen_moves(state@)[j as int]));
                    assert(moves_view(r@) =~= frozen_moves(state@).take(j + 1));
                }
                j += 1;
            }
            proof {
                assert(moves_view(r@) =~= frozen_moves(state@));
                let q = Seq::<Direction>::empty();
                assert(single_replay(g, state@, q) == Some(state@));
                assert(escapes_in(g, state@, 0));
                assert(r@[0].0 == Direction::North && r@[1].0 == Direction::East && r@[2].0
                    == Direction::South && r@[3].0 == Direction::West) by {
                    assert(moves_view(r@)[0] == frozen_moves(state@)[0]);
                    assert(moves_view(r@)[1] == frozen_moves(state@)[1]);
                    assert(moves_view(r@)[2] == frozen_moves(state@)[2]);
                    assert(moves_view(r@)[3] == frozen_moves(state@)[3]);
                }
                assert(escape_dirs_present(g, state@, r@)) by {
                    assert forall|d: Direction| (state@.outside || #[trigger] g.has_exit(
                        state@.robot, d)) implies dir_present(r@, d) by {
                        match d {
                            Direction::North => {
                                assert(r@[0].0 == d);
                            },
                            Direction::East => {
                                assert(r@[1].0 == d);
                            },
                            Direction::South => {
                                assert(r@[2].0 == d);
                            },
                            Direction::West => {
                                assert(r@[3].0 == d);
                            },
                        }
                    }
                }
                assert(outside_moves_settled(r@)) by {
                    assert forall|x: int|
                        0 <= x < r@.len() && (#[trigger] r@[x]).3@.outside implies r@[x].2 == 0 by {
                        assert(moves_view(r@)[x] == frozen_moves(state@)[x]);
                    }
                }
            }
            return r;
        }
        let idx = memo.ensure_node(state, 0, Ghost(g));
        if !memo.solved[idx] {
            memo.set_depth(idx, 0, Ghost(g));
            self.solve(memo, idx);
        }
        self.settle_exits(memo, idx);
        proof {
            assert(memo.states@[idx as int]@ == state@);
            assert forall|i2: int| 0 <= i2 < idx implies (#[trigger] memo.states@[i2])@
                != state@ by {}
            lemma_find_node_at(*memo, state@, idx as int, 0);
        }
        if !memo.solved[idx] || memo.best[idx].len() == 0 {
            // The node stayed unsolved (or, once outside nodes are set
            // aside, records no escape): report no moves, pruning the
            // branch.  An exit bond would have settled the node, so the
            // state has none.
            proof {
                assert forall|d: Direction| !(#[trigger] g.has_exit(state@.robot, d)) by {
                    if g.has_exit(state@.robot, d) {
                        assert(memo.solved@[idx as int]);
                        assert(memo.depth_to_solution@[idx as int] > 0);
                    }
                }
                assert(escape_dirs_present(g, state@, r@));
                assert(outside_moves_settled(r@));
            }
            return r;
        }
        proof {
            lemma_solved_reaches_exit(*memo, g, idx as int);
        }
        let mut k: usize = 0;
        while k < memo.edges.len()
            invariant
                g == self@,
                memo.wf(g),
                k <= memo.edges@.len(),
                idx < memo.states@.len(),
                memo.states@[idx as int]@ == state@,
                moves_view(r@) + recorded_moves(*memo, idx as int, k as int) == recorded_moves(
                    *memo,
                    idx as int,
                    0,
                ),
                moves_ok(g, state@, r@),
            decreases memo.edges@.len() - k,
        {
            let (from, tgt, d) = memo.edges[k];
            if from == idx {
                let is_best = StateMemo::contains_dir(&memo.best[idx], d);
                let remaining: usize = if memo.solved[tgt] {
                    memo.depth_to_solution[tgt]
                } else {
                    HORIZON + 1
                };
                let ghost before = moves_view(r@);
                r.push((d, is_best, remaining, memo.states[tgt].duplicate()));
                proof {
                    assert(moves_view(r@) =~= before.push(move_of_edge(*memo, idx as int,
                    k as int)));
                    assert(moves_view(r@) + recorded_moves(*memo, idx as int, k + 1) =~= before
                        + recorded_moves(*memo, idx as int, k as int));
                }
            }
            k += 1;
        }
        proof {
            assert(recorded_moves(*memo, idx as int, memo.edges@.len() as int)
                =~= Seq::<MoveView>::empty());
            assert(moves_view(r@) + recorded_moves(*memo, idx as int, memo.edges@.len() as int)
                =~= moves_view(r@));
            assert(moves_view(r@) == recorded_moves(*memo, idx as int, 0));
            assert(escape_dirs_present(g, state@, r@)) by {
                assert forall|d: Direction| (state@.outside || #[trigger] g.has_exit(state@.robot,
                    d)) implies dir_present(r@, d) by {
                    let k = choose|k: int|
                        0 <= k < memo.edges@.len() && (#[trigger] memo.edges@[k]).0 == idx
                            && memo.edges@[k].2 == d;
                    lemma_recorded_contains(*memo, idx as int, 0, k);
                    let mv = move_of_edge(*memo, idx as int, k);
                    let listing = recorded_moves(*memo, idx as int, 0);
                    let j2 = choose|j2: int| 0 <= j2 < listing.len() && listing[j2] == mv;
                    assert(moves_view(r@)[j2] == mv);
                    assert(r@[j2].0 == d);
                    assert(dir_present(r@, d));
                }
            }
            assert(outside_moves_settled(r@)) by {
                assert forall|x: int|
                    0 <= x < r@.len() && (#[trigger] r@[x]).3@.outside implies r@[x].2 == 0 by {
                    lemma_recorded_element(*memo, idx as int, 0, x);
                    let k2 = choose|k2: int|
                        0 <= k2 < memo.edges@.len() && (#[trigger] memo.edges@[k2]).0 == idx
                            && recorded_moves(*memo, idx as int, 0)[x] == move_of_edge(*memo,
                            idx as int, k2);
                    let t2 = memo.edges@[k2].1 as int;
                    assert(moves_view(r@)[x] == move_of_edge(*memo, idx as int, k2));
                    assert(r@[x].3@ == memo.states@[t2]@);
                    assert(memo.solved@[t2]);
                    assert(memo.depth_to_solution@[t2] == 0);
                }
            }
        }
        r
    }
}

} // verus!
