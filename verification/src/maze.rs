//! The product search: a breadth-first exploration of pairs of
//! single-grid states under the synchronization rule that every tick
//! applies one shared direction to both grids.

use vstd::prelude::*;

use crate::HORIZON;
use crate::memo::{dir_present, escape_dirs_present, moves_ok, outside_moves_settled, StateMemo};
use crate::singlemaze::{clone_dirs, dir_order, lemma_dir_indexed, Direction, GridView, SingleMaze, SingleMazeState, StateView};

verus! {

/// Identity view of a paired state: both halves, nothing else.
pub ghost struct PairView {
    pub a: StateView,
    pub b: StateView,
}

/// One frontier entry of the specification-level search: a paired state
/// and the move sequence that reached it.
pub ghost struct SearchEntry {
    pub state: PairView,
    pub path: Seq<Direction>,
}

/// Outcome of expanding (part of) a breadth-first layer: either a
/// winning move sequence, or the grown visited set and next frontier.
pub ghost enum Expansion {
    Found(Seq<Direction>),
    Next(Seq<PairView>, Seq<SearchEntry>),
}

/// A paired state is winning exactly when both robots are outside.
pub open spec fn winning(p: PairView) -> bool {
    p.a.outside && p.b.outside
}

/// Both halves of a paired state are well-formed for their grids.
pub open spec fn pair_wf(m1: GridView, m2: GridView, p: PairView) -> bool {
    m1.state_wf(p.a) && m2.state_wf(p.b)
}

/// A shared move is legal exactly when both grids report it legal.
pub open spec fn pair_legal(m1: GridView, m2: GridView, p: PairView, d: Direction) -> bool {
    m1.spec_step(p.a, d).0 && m2.spec_step(p.b, d).0
}

/// The paired state after one shared move.
pub open spec fn pair_next(m1: GridView, m2: GridView, p: PairView, d: Direction) -> PairView {
    PairView { a: m1.spec_step(p.a, d).1, b: m2.spec_step(p.b, d).1 }
}

/// Replays a move sequence from a paired state; `None` when some move
/// along the way is illegal.
pub open spec fn replay(m1: GridView, m2: GridView, p: PairView, path: Seq<Direction>) -> Option<
    PairView,
>
    decreases path.len(),
{
    if path.len() == 0 {
        Some(p)
    } else if pair_legal(m1, m2, p, path[0]) {
        replay(m1, m2, pair_next(m1, m2, p, path[0]), path.skip(1))
    } else {
        None
    }
}

/// A move sequence solves the puzzle from `p`: every move is legal and
/// the final paired state is winning.
pub open spec fn replay_wins(m1: GridView, m2: GridView, p: PairView, path: Seq<Direction>) -> bool {
    replay(m1, m2, p, path) matches Some(q) && winning(q)
}

/// Expands one frontier entry for the directions from `j` on: each legal
/// move either wins, or yields a paired state that joins the visited set
/// and the next frontier unless it was seen before.
pub open spec fn expand_dirs(
    m1: GridView,
    m2: GridView,
    e: SearchEntry,
    j: int,
    visited: Seq<PairView>,
    next: Seq<SearchEntry>,
) -> Expansion
    decreases 4 - j,
{
    if j < 0 || j >= 4 {
        Expansion::Next(visited, next)
    } else {
        let d = dir_order()[j];
        if pair_legal(m1, m2, e.state, d) {
            let q = pair_next(m1, m2, e.state, d);
            let path = e.path.push(d);
            if winning(q) {
                Expansion::Found(path)
            } else if visited.contains(q) {
                expand_dirs(m1, m2, e, j + 1, visited, next)
            } else {
                expand_dirs(m1, m2, e, j + 1, visited.push(q), next.push(SearchEntry { state: q, path }))
            }
        } else {
            expand_dirs(m1, m2, e, j + 1, visited, next)
        }
    }
}

/// Expands the frontier entries from `i` on.
pub open spec fn expand_layer(
    m1: GridView,
    m2: GridView,
    frontier: Seq<SearchEntry>,
    i: int,
    visited: Seq<PairView>,
    next: Seq<SearchEntry>,
) -> Expansion
    decreases frontier.len() - i,
{
    if i < 0 || i >= frontier.len() {
        Expansion::Next(visited, next)
    } else {
        match expand_dirs(m1, m2, frontier[i], 0, visited, next) {
            Expansion::Found(path) => Expansion::Found(path),
            Expansion::Next(v2, n2) => expand_layer(m1, m2, frontier, i + 1, v2, n2),
        }
    }
}

/// The breadth-first search itself: expands whole layers until a layer
/// finds a winning sequence, the frontier empties, or the fuel runs out.
pub open spec fn search(
    m1: GridView,
    m2: GridView,
    frontier: Seq<SearchEntry>,
    visited: Seq<PairView>,
    fuel: nat,
) -> Option<Seq<Direction>>
    decreases fuel,
{
    if frontier.len() == 0 || fuel == 0 {
        None
    } else {
        match expand_layer(m1, m2, frontier, 0, visited, Seq::empty()) {
            Expansion::Found(path) => Some(path),
            Expansion::Next(v2, n2) => search(m1, m2, n2, v2, (fuel - 1) as nat),
        }
    }
}

/// What the solver returns: the breadth-first search over paired states
/// from the initial pair, bounded by the horizon.  An initial pair that
/// is already winning needs no moves.
pub open spec fn solve_spec(m1: GridView, m2: GridView, p: PairView) -> Option<Seq<Direction>> {
    if winning(p) {
        Some(Seq::empty())
    } else {
        search(
            m1,
            m2,
            seq![SearchEntry { state: p, path: Seq::empty() }],
            seq![p],
            HORIZON as nat,
        )
    }
}

/// Every entry of a search frontier at layer `tick` replays from the
/// start, is not yet winning, and carries a path of length `tick`.
pub open spec fn entries_ok(
    m1: GridView,
    m2: GridView,
    p0: PairView,
    frontier: Seq<SearchEntry>,
    tick: int,
) -> bool {
    forall|i: int|
        0 <= i < frontier.len() ==> {
            let e = #[trigger] frontier[i];
            &&& replay(m1, m2, p0, e.path) == Some(e.state)
            &&& !winning(e.state)
            &&& e.path.len() == tick
        }
}

/// Replaying one more move is replaying, then moving.
proof fn lemma_replay_snoc(m1: GridView, m2: GridView, p: PairView, path: Seq<Direction>, d: Direction)
    ensures
        replay(m1, m2, p, path.push(d)) == (match replay(m1, m2, p, path) {
            Some(q) => if pair_legal(m1, m2, q, d) {
                Some(pair_next(m1, m2, q, d))
            } else {
                None
            },
            None => None,
        }),
    decreases path.len(),
{
    if path.len() == 0 {
        assert(path.push(d)[0] == d);
        assert(path.push(d).skip(1) =~= Seq::<Direction>::empty());
        if pair_legal(m1, m2, p, d) {
            assert(replay(m1, m2, p, path.push(d)) == replay(
                m1,
                m2,
                pair_next(m1, m2, p, d),
                path.push(d).skip(1),
            ));
        }
    } else {
        assert(path.push(d)[0] == path[0]);
        assert(path.push(d).skip(1) =~= path.skip(1).push(d));
        if pair_legal(m1, m2, p, path[0]) {
            lemma_replay_snoc(m1, m2, pair_next(m1, m2, p, path[0]), path.skip(1), d);
        }
    }
}

/// Soundness of expanding one entry: a found sequence wins, and every
/// new frontier entry replays at the next layer.
proof fn lemma_expand_dirs_sound(
    m1: GridView,
    m2: GridView,
    p0: PairView,
    e: SearchEntry,
    j: int,
    visited: Seq<PairView>,
    next: Seq<SearchEntry>,
    tick: int,
)
    requires
        replay(m1, m2, p0, e.path) == Some(e.state),
        !winning(e.state),
        e.path.len() == tick,
        entries_ok(m1, m2, p0, next, tick + 1),
    ensures
        (match expand_dirs(m1, m2, e, j, visited, next) {
            Expansion::Found(path) => replay_wins(m1, m2, p0, path) && path.len() == tick + 1,
            Expansion::Next(v2, n2) => entries_ok(m1, m2, p0, n2, tick + 1),
        }),
    decreases 4 - j,
{
    if 0 <= j < 4 {
        let d = dir_order()[j];
        if pair_legal(m1, m2, e.state, d) {
            let q = pair_next(m1, m2, e.state, d);
            let path = e.path.push(d);
            lemma_replay_snoc(m1, m2, p0, e.path, d);
            assert(replay(m1, m2, p0, path) == Some(q));
            if winning(q) {
            } else if visited.contains(q) {
                lemma_expand_dirs_sound(m1, m2, p0, e, j + 1, visited, next, tick);
            } else {
                let next2 = next.push(SearchEntry { state: q, path });
                assert(entries_ok(m1, m2, p0, next2, tick + 1)) by {
                    assert(forall|i: int|
                        0 <= i < next.len() ==> #[trigger] next2[i] == next[i]);
                    assert(next2[next.len() as int] == SearchEntry { state: q, path });
                }
                lemma_expand_dirs_sound(m1, m2, p0, e, j + 1, visited.push(q), next2, tick);
            }
        } else {
            lemma_expand_dirs_sound(m1, m2, p0, e, j + 1, visited, next, tick);
        }
    }
}

/// Soundness of expanding a layer.
proof fn lemma_expand_layer_sound(
    m1: GridView,
    m2: GridView,
    p0: PairView,
    frontier: Seq<SearchEntry>,
    i: int,
    visited: Seq<PairView>,
    next: Seq<SearchEntry>,
    tick: int,
)
    requires
        entries_ok(m1, m2, p0, frontier, tick),
        entries_ok(m1, m2, p0, next, tick + 1),
    ensures
        (match expand_layer(m1, m2, frontier, i, visited, next) {
            Expansion::Found(path) => replay_wins(m1, m2, p0, path) && path.len() == tick + 1,
            Expansion::Next(v2, n2) => entries_ok(m1, m2, p0, n2, tick + 1),
        }),
    decreases frontier.len() - i,
{
    if 0 <= i < frontier.len() {
        lemma_expand_dirs_sound(m1, m2, p0, frontier[i], 0, visited, next, tick);
        match expand_dirs(m1, m2, frontier[i], 0, visited, next) {
            Expansion::Found(path) => {},
            Expansion::Next(v2, n2) => {
                lemma_expand_layer_sound(m1, m2, p0, frontier, i + 1, v2, n2, tick);
            },
        }
    }
}

/// Soundness of the whole search: any sequence it returns replays from
/// the start to a winning pair, within `tick + fuel` moves.
proof fn lemma_search_sound(
    m1: GridView,
    m2: GridView,
    p0: PairView,
    frontier: Seq<SearchEntry>,
    visited: Seq<PairView>,
    fuel: nat,
    tick: int,
)
    requires
        entries_ok(m1, m2, p0, frontier, tick),
        tick >= 0,
    ensures
        (match search(m1, m2, frontier, visited, fuel) {
            Some(path) => replay_wins(m1, m2, p0, path) && path.len() <= tick + fuel,
            None => true,
        }),
    decreases fuel,
{
    if frontier.len() > 0 && fuel > 0 {
        lemma_expand_layer_sound(m1, m2, p0, frontier, 0, visited, Seq::empty(), tick);
        match expand_layer(m1, m2, frontier, 0, visited, Seq::empty()) {
            Expansion::Found(path) => {},
            Expansion::Next(v2, n2) => {
                lemma_search_sound(m1, m2, p0, n2, v2, (fuel - 1) as nat, tick + 1);
            },
        }
    }
}

/// Expanding one entry only grows the visited set, keeps the next
/// frontier's states visited, files every newly visited state in the
/// next frontier, and covers all the entry's remaining directions.
proof fn lemma_expand_dirs_complete(
    m1: GridView,
    m2: GridView,
    e: SearchEntry,
    j: int,
    visited: Seq<PairView>,
    next: Seq<SearchEntry>,
)
    requires
        0 <= j,
        frontier_in(next, visited),
    ensures
        (match expand_dirs(m1, m2, e, j, visited, next) {
            Expansion::Found(path) => true,
            Expansion::Next(v2, n2) => {
                &&& subset_of(visited, v2)
                &&& frontier_in(n2, v2)
                &&& dirs_expanded(m1, m2, e, j, v2)
                &&& forall|x: PairView|
                    #[trigger] v2.contains(x) ==> visited.contains(x) || in_frontier(n2, x)
                &&& forall|x: PairView| in_frontier(next, x) ==> in_frontier(n2, x)
            },
        }),
    decreases 4 - j,
{
    if j < 0 || j >= 4 {
        assert(subset_of(visited, visited));
        assert forall|x: PairView| in_frontier(next, x) implies in_frontier(next, x) by {}
    } else {
        let d = dir_order()[j];
        if pair_legal(m1, m2, e.state, d) {
            let q = pair_next(m1, m2, e.state, d);
            let path = e.path.push(d);
            if winning(q) {
            } else if visited.contains(q) {
                lemma_expand_dirs_complete(m1, m2, e, j + 1, visited, next);
                match expand_dirs(m1, m2, e, j + 1, visited, next) {
                    Expansion::Found(_) => {},
                    Expansion::Next(v2, n2) => {
                        assert(v2.contains(q));
                    },
                }
            } else {
                let entry2 = SearchEntry { state: q, path };
                let v1 = visited.push(q);
                let n1 = next.push(entry2);
                lemma_push_subset(visited, q);
                assert(frontier_in(n1, v1)) by {
                    assert forall|i: int| 0 <= i < n1.len() implies v1.contains(
                        (#[trigger] n1[i]).state,
                    ) by {
                        if i < next.len() {
                            assert(n1[i] == next[i]);
                            assert(visited.contains(next[i].state));
                        } else {
                            assert(n1[i] == entry2);
                        }
                    }
                }
                lemma_expand_dirs_complete(m1, m2, e, j + 1, v1, n1);
                match expand_dirs(m1, m2, e, j + 1, v1, n1) {
                    Expansion::Found(_) => {},
                    Expansion::Next(v2, n2) => {
                        assert(v2.contains(q));
                        assert(subset_of(visited, v2));
                        assert forall|x: PairView| #[trigger] v2.contains(x) implies
                            visited.contains(x) || in_frontier(n2, x) by {
                            if !visited.contains(x) {
                                if v1.contains(x) {
                                    if x != q {
                                        let i = choose|i: int|
                                            0 <= i < v1.len() && v1[i] == x;
                                        assert(visited[i] == x);
                                    } else {
                                        assert(in_frontier(n1, q)) by {
                                            assert(n1[next.len() as int].state == q);
                                        }
                                        assert(in_frontier(n2, x));
                                    }
                                } else {
                                    assert(in_frontier(n2, x));
                                }
                            }
                        }
                        assert forall|x: PairView| in_frontier(next, x) implies in_frontier(
                            n2,
                            x,
                        ) by {
                            let i = choose|i: int|
                                0 <= i < next.len() && (#[trigger] next[i]).state == x;
                            assert(n1[i].state == x);
                            assert(in_frontier(n1, x));
                        }
                    },
                }
            }
        } else {
            lemma_expand_dirs_complete(m1, m2, e, j + 1, visited, next);
        }
    }
}

/// Expanding a layer covers every remaining entry's directions.
proof fn lemma_expand_layer_complete(
    m1: GridView,
    m2: GridView,
    frontier: Seq<SearchEntry>,
    i: int,
    visited: Seq<PairView>,
    next: Seq<SearchEntry>,
)
    requires
        0 <= i,
        frontier_in(next, visited),
    ensures
        (match expand_layer(m1, m2, frontier, i, visited, next) {
            Expansion::Found(path) => true,
            Expansion::Next(v2, n2) => {
                &&& subset_of(visited, v2)
                &&& frontier_in(n2, v2)
                &&& layer_expanded(m1, m2, frontier, i, v2)
                &&& forall|x: PairView|
                    #[trigger] v2.contains(x) ==> visited.contains(x) || in_frontier(n2, x)
                &&& forall|x: PairView| in_frontier(next, x) ==> in_frontier(n2, x)
            },
        }),
    decreases frontier.len() - i,
{
    if i < 0 || i >= frontier.len() {
        assert(subset_of(visited, visited));
    } else {
        lemma_expand_dirs_complete(m1, m2, frontier[i], 0, visited, next);
        match expand_dirs(m1, m2, frontier[i], 0, visited, next) {
            Expansion::Found(_) => {},
            Expansion::Next(v1, n1) => {
                lemma_expand_layer_complete(m1, m2, frontier, i + 1, v1, n1);
                match expand_layer(m1, m2, frontier, i + 1, v1, n1) {
                    Expansion::Found(_) => {},
                    Expansion::Next(v2, n2) => {
                        assert(subset_of(visited, v2)) by {
                            assert forall|x: PairView| visited.contains(x) implies v2.contains(
                                x,
                            ) by {
                                assert(v1.contains(x));
                            }
                        }
                        assert(layer_expanded(m1, m2, frontier, i, v2)) by {
                            assert forall|ii: int| i <= ii < frontier.len() implies
                                dirs_expanded(m1, m2, #[trigger] frontier[ii], 0, v2) by {
                                if ii == i {
                                    assert(dirs_expanded(m1, m2, frontier[i], 0, v1));
                                    assert forall|jj: int|
                                        0 <= jj < 4 && #[trigger] pair_legal(m1, m2,
                                            frontier[ii].state, dir_order()[jj]) implies !winning(
                                        pair_next(m1, m2, frontier[ii].state, dir_order()[jj]))
                                        && v2.contains(pair_next(m1, m2, frontier[ii].state,
                                            dir_order()[jj])) by {
                                        assert(v1.contains(pair_next(m1, m2, frontier[ii].state,
                                            dir_order()[jj])));
                                    }
                                }
                            }
                        }
                        assert forall|x: PairView| #[trigger] v2.contains(x) implies
                            visited.contains(x) || in_frontier(n2, x) by {
                            if !visited.contains(x) && v1.contains(x) {
                                assert(in_frontier(n1, x));
                            }
                        }
                        assert forall|x: PairView| in_frontier(next, x) implies in_frontier(
                            n2,
                            x,
                        ) by {
                            assert(in_frontier(n1, x));
                        }
                    },
                }
            },
        }
    }
}

/// From a visited state of a fully expanded, frontier-less search, no
/// move sequence ever wins: the visited set is closed and non-winning.
proof fn lemma_closed_no_win(
    m1: GridView,
    m2: GridView,
    visited: Seq<PairView>,
    s: PairView,
    q: Seq<Direction>,
)
    requires
        expansion_closed(m1, m2, visited, Seq::empty()),
        visited.contains(s),
        !winning(s),
    ensures
        !replay_wins(m1, m2, s, q),
    decreases q.len(),
{
    assert(!in_frontier(Seq::empty(), s));
    if q.len() > 0 && pair_legal(m1, m2, s, q[0]) {
        lemma_closed_no_win(m1, m2, visited, pair_next(m1, m2, s, q[0]), q.skip(1));
    }
}

/// Completeness and minimality of the search: with `t` layers already
/// fully covered, a `None` answer means no winning sequence exists
/// within `t` plus the remaining fuel, and a returned sequence is at
/// least as short as every winning sequence.
proof fn lemma_search_complete(
    m1: GridView,
    m2: GridView,
    p0: PairView,
    frontier: Seq<SearchEntry>,
    visited: Seq<PairView>,
    fuel: nat,
    t: int,
)
    requires
        t >= 0,
        entries_ok(m1, m2, p0, frontier, t),
        frontier_in(frontier, visited),
        expansion_closed(m1, m2, visited, frontier),
        reach_visited(m1, m2, p0, visited, t),
    ensures
        (match search(m1, m2, frontier, visited, fuel) {
            Some(path) => forall|q: Seq<Direction>|
                #[trigger] replay_wins(m1, m2, p0, q) ==> q.len() >= path.len(),
            None => no_win_within(m1, m2, p0, t + fuel),
        }),
    decreases fuel,
{
    if frontier.len() == 0 {
        assert forall|q: Seq<Direction>| #[trigger] replay_wins(m1, m2, p0, q) implies q.len() > t
            + fuel by {
            assert(path_blocked_or_seen(m1, m2, p0, visited, Seq::<Direction>::empty()));
            assert(replay(m1, m2, p0, Seq::<Direction>::empty()) == Some(p0));
            lemma_closed_no_win(m1, m2, visited, p0, q);
        }
    } else if fuel == 0 {
        assert forall|q: Seq<Direction>| #[trigger] replay_wins(m1, m2, p0, q) implies q.len() > t
            + fuel by {
            if q.len() <= t {
                assert(path_blocked_or_seen(m1, m2, p0, visited, q));
            }
        }
    } else {
        lemma_expand_layer_sound(m1, m2, p0, frontier, 0, visited, Seq::empty(), t);
        lemma_expand_layer_complete(m1, m2, frontier, 0, visited, Seq::empty());
        match expand_layer(m1, m2, frontier, 0, visited, Seq::empty()) {
            Expansion::Found(path) => {
                assert(path.len() == t + 1);
                assert forall|q: Seq<Direction>| #[trigger] replay_wins(m1, m2, p0, q) implies
                    q.len() >= path.len() by {
                    if q.len() <= t {
                        assert(path_blocked_or_seen(m1, m2, p0, visited, q));
                    }
                }
            },
            Expansion::Next(v2, n2) => {
                assert(expansion_closed(m1, m2, v2, n2)) by {
                    assert forall|s: PairView, d: Direction|
                        v2.contains(s) && !in_frontier(n2, s) && #[trigger] pair_legal(m1, m2, s,
                            d) implies !winning(pair_next(m1, m2, s, d)) && v2.contains(pair_next(
                        m1, m2, s, d)) by {
                        if visited.contains(s) {
                            if in_frontier(frontier, s) {
                                let ii = choose|ii: int|
                                    0 <= ii < frontier.len() && (#[trigger] frontier[ii]).state
                                        == s;
                                lemma_dir_indexed(d);
                                let jj = choose|jj: int| 0 <= jj < 4 && dir_order()[jj] == d;
                                assert(dirs_expanded(m1, m2, frontier[ii], 0, v2));
                                assert(pair_legal(m1, m2, frontier[ii].state, dir_order()[jj]));
                            } else {
                                assert(!winning(pair_next(m1, m2, s, d)) && visited.contains(
                                    pair_next(m1, m2, s, d)));
                                assert(v2.contains(pair_next(m1, m2, s, d)));
                            }
                        }
                    }
                }
                assert(reach_visited(m1, m2, p0, v2, t + 1)) by {
                    assert forall|q: Seq<Direction>| q.len() <= t + 1 implies
                        #[trigger] path_blocked_or_seen(m1, m2, p0, v2, q) by {
                        if q.len() <= t {
                            assert(path_blocked_or_seen(m1, m2, p0, visited, q));
                            match replay(m1, m2, p0, q) {
                                Some(s) => {
                                    assert(v2.contains(s));
                                },
                                None => {},
                            }
                        } else {
                            let q0 = q.take(t as int);
                            let d = q[t as int];
                            assert(q =~= q0.push(d));
                            lemma_replay_snoc(m1, m2, p0, q0, d);
                            assert(q0.len() <= t);
                            assert(path_blocked_or_seen(m1, m2, p0, visited, q0));
                            match replay(m1, m2, p0, q0) {
                                Some(s0) => {
                                    if pair_legal(m1, m2, s0, d) {
                                        let s1 = pair_next(m1, m2, s0, d);
                                        assert(replay(m1, m2, p0, q) == Some(s1));
                                        if in_frontier(frontier, s0) {
                                            let ii = choose|ii: int|
                                                0 <= ii < frontier.len() && (
                                                #[trigger] frontier[ii]).state == s0;
                                            lemma_dir_indexed(d);
                                            let jj = choose|jj: int|
                                                0 <= jj < 4 && dir_order()[jj] == d;
                                            assert(dirs_expanded(m1, m2, frontier[ii], 0, v2));
                                            assert(pair_legal(m1, m2, frontier[ii].state,
                                                dir_order()[jj]));
                                            assert(!winning(s1) && v2.contains(s1));
                                        } else {
                                            assert(!winning(s1) && visited.contains(s1));
                                            assert(v2.contains(s1));
                                        }
                                    }
                                },
                                None => {
                                    assert(replay(m1, m2, p0, q) is None);
                                },
                            }
                        }
                    }
                }
                lemma_search_complete(m1, m2, p0, n2, v2, (fuel - 1) as nat, t + 1);
            },
        }
    }
}

/// Law: the solver's answer is complete and optimal.  When the search
/// reports no solution, no move sequence of at most the horizon's
/// length wins; when it returns a sequence, no winning sequence is
/// shorter.
pub proof fn lemma_solve_spec_complete(m1: GridView, m2: GridView, p0: PairView)
    ensures
        solve_spec(m1, m2, p0) is None ==> no_win_within(m1, m2, p0, HORIZON as int),
        (match solve_spec(m1, m2, p0) {
            Some(path) => forall|q: Seq<Direction>|
                #[trigger] replay_wins(m1, m2, p0, q) ==> q.len() >= path.len(),
            None => true,
        }),
{
    if winning(p0) {
    } else {
        let frontier = seq![SearchEntry { state: p0, path: Seq::<Direction>::empty() }];
        let visited = seq![p0];
        assert(replay(m1, m2, p0, Seq::empty()) == Some(p0));
        assert(entries_ok(m1, m2, p0, frontier, 0));
        assert(frontier_in(frontier, visited)) by {
            assert(visited.contains(p0)) by {
                assert(visited[0] == p0);
            }
        }
        assert(expansion_closed(m1, m2, visited, frontier)) by {
            assert forall|s: PairView, d: Direction|
                visited.contains(s) && !in_frontier(frontier, s) && #[trigger] pair_legal(m1, m2,
                    s, d) implies !winning(pair_next(m1, m2, s, d)) && visited.contains(pair_next(
                m1, m2, s, d)) by {
                let i = choose|i: int| 0 <= i < visited.len() && visited[i] == s;
                assert(s == p0);
                assert(frontier[0].state == s);
                assert(in_frontier(frontier, s));
            }
        }
        assert(reach_visited(m1, m2, p0, visited, 0)) by {
            assert forall|q: Seq<Direction>| q.len() <= 0 implies #[trigger] path_blocked_or_seen(
                m1, m2, p0, visited, q) by {
                assert(q =~= Seq::<Direction>::empty());
                assert(replay(m1, m2, p0, q) == Some(p0));
                assert(visited[0] == p0);
                assert(visited.contains(p0));
            }
        }
        lemma_search_complete(m1, m2, p0, frontier, visited, HORIZON as nat, 0);
    }
}

/// Law: the solver's answer is sound.  Whenever the search names a move
/// sequence, replaying that sequence from the initial pair is legal at
/// every tick, ends with both robots outside, and takes at most the
/// horizon's number of ticks.
pub proof fn lemma_solve_spec_sound(m1: GridView, m2: GridView, p0: PairView)
    ensures
        (match solve_spec(m1, m2, p0) {
            Some(path) => replay_wins(m1, m2, p0, path) && path.len() <= HORIZON,
            None => true,
        }),
{
    if winning(p0) {
    } else {
        let frontier = seq![SearchEntry { state: p0, path: Seq::<Direction>::empty() }];
        assert(replay(m1, m2, p0, Seq::empty()) == Some(p0));
        assert(entries_ok(m1, m2, p0, frontier, 0));
        lemma_search_sound(m1, m2, p0, frontier, seq![p0], HORIZON as nat, 0);
    }
}

/// Whether some frontier entry carries this paired state.
pub open spec fn in_frontier(frontier: Seq<SearchEntry>, s: PairView) -> bool {
    exists|i: int| 0 <= i < frontier.len() && (#[trigger] frontier[i]).state == s
}

/// Every element of `a` is an element of `b`.
pub open spec fn subset_of(a: Seq<PairView>, b: Seq<PairView>) -> bool {
    forall|x: PairView| #[trigger] a.contains(x) ==> b.contains(x)
}

/// Every frontier entry's state is in the visited set.
pub open spec fn frontier_in(frontier: Seq<SearchEntry>, visited: Seq<PairView>) -> bool {
    forall|i: int| 0 <= i < frontier.len() ==> visited.contains((#[trigger] frontier[i]).state)
}

/// Every visited state that no frontier entry carries has already been
/// expanded: each of its legal moves leads to a non-winning state that
/// is also visited.
pub open spec fn expansion_closed(
    m1: GridView,
    m2: GridView,
    visited: Seq<PairView>,
    frontier: Seq<SearchEntry>,
) -> bool {
    forall|s: PairView, d: Direction|
        visited.contains(s) && !in_frontier(frontier, s) && #[trigger] pair_legal(m1, m2, s, d)
            ==> !winning(pair_next(m1, m2, s, d)) && visited.contains(pair_next(m1, m2, s, d))
}

/// Replaying this path either fails, or ends in a non-winning state that
/// the visited set holds.
pub open spec fn path_blocked_or_seen(
    m1: GridView,
    m2: GridView,
    p0: PairView,
    visited: Seq<PairView>,
    q: Seq<Direction>,
) -> bool {
    match replay(m1, m2, p0, q) {
        Some(s) => !winning(s) && visited.contains(s),
        None => true,
    }
}

/// Every legal path of length at most `t` ends in a non-winning state
/// that the visited set holds: the search has fully covered `t` layers.
pub open spec fn reach_visited(
    m1: GridView,
    m2: GridView,
    p0: PairView,
    visited: Seq<PairView>,
    t: int,
) -> bool {
    forall|q: Seq<Direction>|
        q.len() <= t ==> #[trigger] path_blocked_or_seen(m1, m2, p0, visited, q)
}

/// Every winning move sequence is longer than `bound`.
pub open spec fn no_win_within(m1: GridView, m2: GridView, p0: PairView, bound: int) -> bool {
    forall|q: Seq<Direction>| #[trigger] replay_wins(m1, m2, p0, q) ==> q.len() > bound
}

/// All legal moves of entry `e` from direction index `j` on lead to
/// non-winning states held by `visited`.
pub open spec fn dirs_expanded(
    m1: GridView,
    m2: GridView,
    e: SearchEntry,
    j: int,
    visited: Seq<PairView>,
) -> bool {
    forall|jj: int|
        j <= jj < 4 && #[trigger] pair_legal(m1, m2, e.state, dir_order()[jj]) ==> !winning(
            pair_next(m1, m2, e.state, dir_order()[jj]),
        ) && visited.contains(pair_next(m1, m2, e.state, dir_order()[jj]))
}

/// All legal moves of the frontier entries from index `i` on lead to
/// non-winning states held by `visited`.
pub open spec fn layer_expanded(
    m1: GridView,
    m2: GridView,
    frontier: Seq<SearchEntry>,
    i: int,
    visited: Seq<PairView>,
) -> bool {
    forall|ii: int|
        i <= ii < frontier.len() ==> dirs_expanded(m1, m2, #[trigger] frontier[ii], 0, visited)
}

/// Pushing keeps the old elements and adds the new one.
proof fn lemma_push_subset(v: Seq<PairView>, q: PairView)
    ensures
        subset_of(v, v.push(q)),
        v.push(q).contains(q),
{
    assert forall|x: PairView| v.contains(x) implies v.push(q).contains(x) by {
        let i = choose|i: int| 0 <= i < v.len() && v[i] == x;
        assert(v.push(q)[i] == x);
    }
    assert(v.push(q)[v.len() as int] == q);
}

/// The chosen half of a paired state.
pub open spec fn side(first: bool, p: PairView) -> StateView {
    if first {
        p.a
    } else {
        p.b
    }
}

/// The chosen grid of the pair.
pub open spec fn side_grid(first: bool, m1: GridView, m2: GridView) -> GridView {
    if first {
        m1
    } else {
        m2
    }
}

/// Every frontier entry's chosen half still has its robot inside.
pub open spec fn all_inside(first: bool, frontier: Seq<SearchEntry>) -> bool {
    forall|i: int| 0 <= i < frontier.len() ==> !side(first, (#[trigger] frontier[i]).state).outside
}

/// A grid without exit bonds never lets its robot out.
proof fn lemma_step_stays_inside(m: GridView, s: StateView, d: Direction)
    requires
        m.exits.len() == 0,
        !s.outside,
    ensures
        !m.spec_step(s, d).1.outside,
{
    assert(!m.has_exit(s.robot, d));
}

proof fn lemma_expand_dirs_no_win(
    m1: GridView,
    m2: GridView,
    first: bool,
    e: SearchEntry,
    j: int,
    visited: Seq<PairView>,
    next: Seq<SearchEntry>,
)
    requires
        side_grid(first, m1, m2).exits.len() == 0,
        !side(first, e.state).outside,
        all_inside(first, next),
    ensures
        (match expand_dirs(m1, m2, e, j, visited, next) {
            Expansion::Found(path) => false,
            Expansion::Next(v2, n2) => all_inside(first, n2),
        }),
    decreases 4 - j,
{
    if 0 <= j < 4 {
        let d = dir_order()[j];
        if pair_legal(m1, m2, e.state, d) {
            let q = pair_next(m1, m2, e.state, d);
            if first {
                lemma_step_stays_inside(m1, e.state.a, d);
            } else {
                lemma_step_stays_inside(m2, e.state.b, d);
            }
            assert(!side(first, q).outside);
            assert(!winning(q));
            if visited.contains(q) {
                lemma_expand_dirs_no_win(m1, m2, first, e, j + 1, visited, next);
            } else {
                let next2 = next.push(SearchEntry { state: q, path: e.path.push(d) });
                assert(all_inside(first, next2)) by {
                    assert(forall|i: int| 0 <= i < next.len() ==> #[trigger] next2[i] == next[i]);
                    assert(next2[next.len() as int].state == q);
                }
                lemma_expand_dirs_no_win(m1, m2, first, e, j + 1, visited.push(q), next2);
            }
        } else {
            lemma_expand_dirs_no_win(m1, m2, first, e, j + 1, visited, next);
        }
    }
}

proof fn lemma_expand_layer_no_win(
    m1: GridView,
    m2: GridView,
    first: bool,
    frontier: Seq<SearchEntry>,
    i: int,
    visited: Seq<PairView>,
    next: Seq<SearchEntry>,
)
    requires
        side_grid(first, m1, m2).exits.len() == 0,
        all_inside(first, frontier),
        all_inside(first, next),
    ensures
        (match expand_layer(m1, m2, frontier, i, visited, next) {
            Expansion::Found(path) => false,
            Expansion::Next(v2, n2) => all_inside(first, n2),
        }),
    decreases frontier.len() - i,
{
    if 0 <= i < frontier.len() {
        lemma_expand_dirs_no_win(m1, m2, first, frontier[i], 0, visited, next);
        match expand_dirs(m1, m2, frontier[i], 0, visited, next) {
            Expansion::Found(path) => {},
            Expansion::Next(v2, n2) => {
                lemma_expand_layer_no_win(m1, m2, first, frontier, i + 1, v2, n2);
            },
        }
    }
}

proof fn lemma_search_no_win(
    m1: GridView,
    m2: GridView,
    first: bool,
    frontier: Seq<SearchEntry>,
    visited: Seq<PairView>,
    fuel: nat,
)
    requires
        side_grid(first, m1, m2).exits.len() == 0,
        all_inside(first, frontier),
    ensures
        search(m1, m2, frontier, visited, fuel) is None,
    decreases fuel,
{
    if frontier.len() > 0 && fuel > 0 {
        lemma_expand_layer_no_win(m1, m2, first, frontier, 0, visited, Seq::empty());
        match expand_layer(m1, m2, frontier, 0, visited, Seq::empty()) {
            Expansion::Found(path) => {},
            Expansion::Next(v2, n2) => {
                lemma_search_no_win(m1, m2, first, n2, v2, (fuel - 1) as nat);
            },
        }
    }
}

/// Law: a grid with no exit bonds makes the twin maze unsolvable.  If
/// the chosen grid (`first` picks grid one, otherwise grid two) has no
/// exit bonds and its robot starts inside, the solver reports no
/// solution.
pub proof fn lemma_no_exit_unsolvable(m1: GridView, m2: GridView, p: PairView, first: bool)
    requires
        side_grid(first, m1, m2).exits.len() == 0,
        !side(first, p).outside,
    ensures
        solve_spec(m1, m2, p) is None,
{
    assert(!winning(p));
    let frontier = seq![SearchEntry { state: p, path: Seq::<Direction>::empty() }];
    assert(all_inside(first, frontier)) by {
        assert(frontier[0].state == p);
    }
    lemma_search_no_win(m1, m2, first, frontier, seq![p], HORIZON as nat);
}

/// The dynamic state of the paired search: both grids' states and the
/// move sequence that reached them.  Identity is the two halves alone;
/// the recorded moves never take part in deduplication.
#[derive(Debug)]
pub struct MazeState {
    pub maze_one_state: SingleMazeState,
    pub maze_two_state: SingleMazeState,
    pub solution: Vec<Direction>,
}

impl View for MazeState {
    type V = PairView;

    open spec fn view(&self) -> PairView {
        PairView { a: self.maze_one_state@, b: self.maze_two_state@ }
    }
}

/// The twin maze: both grids' immutable geometry.
pub struct Maze {
    pub maze_one: SingleMaze,
    pub maze_two: SingleMaze,
}

/// Identity views of the visited pairs.
pub open spec fn visited_views(s: Seq<(SingleMazeState, SingleMazeState)>) -> Seq<PairView> {
    s.map_values(|p: (SingleMazeState, SingleMazeState)| PairView { a: p.0@, b: p.1@ })
}

/// Search entries of an executable frontier.
pub open spec fn frontier_views(s: Seq<MazeState>) -> Seq<SearchEntry> {
    s.map_values(|m: MazeState| SearchEntry { state: m@, path: m.solution@ })
}

/// Every frontier entry's halves are well-formed for their grids.
pub open spec fn frontier_wf(m1: GridView, m2: GridView, s: Seq<MazeState>) -> bool {
    forall|i: int| 0 <= i < s.len() ==> pair_wf(m1, m2, (#[trigger] s[i])@)
}

/// Scans the visited set for a paired state's identity.
fn pair_seen(
    visited: &Vec<(SingleMazeState, SingleMazeState)>,
    a: &SingleMazeState,
    b: &SingleMazeState,
) -> (r: bool)
    ensures
        r == visited_views(visited@).contains(PairView { a: a@, b: b@ }),
{
    let ghost pv = PairView { a: a@, b: b@ };
    let mut i: usize = 0;
    while i < visited.len()
        invariant
            i <= visited.len(),
            pv == (PairView { a: a@, b: b@ }),
            forall|k: int| 0 <= k < i ==> #[trigger] visited_views(visited@)[k] != pv,
        decreases visited.len() - i,
    {
        let hit = visited[i].0.identity_eq(a) && visited[i].1.identity_eq(b);
        proof {
            assert(visited_views(visited@)[i as int] == (PairView {
                a: visited@[i as int].0@,
                b: visited@[i as int].1@,
            }));
        }
        if hit {
            proof {
                assert(visited_views(visited@)[i as int] == pv);
            }
            return true;
        }
        i += 1;
    }
    proof {
        if visited_views(visited@).contains(pv) {
            let k = choose|k: int|
                0 <= k < visited_views(visited@).len() && visited_views(visited@)[k] == pv;
            assert(visited_views(visited@)[k] != pv);
        }
    }
    false
}

impl Maze {
    pub fn new(maze_one: SingleMaze, maze_two: SingleMaze) -> (r: Maze)
        ensures
            r.maze_one == maze_one,
            r.maze_two == maze_two,
    {
        Maze { maze_one, maze_two }
    }

    /// Solves the twin maze by an exact breadth-first search over paired
    /// states: layer by layer, every frontier pair is expanded in all
    /// four directions; a shared move is legal only when both grids
    /// allow it; newly reached pairs are deduplicated by identity; the
    /// first winning pair ends the search.  Returns `None` when the
    /// frontier empties or the horizon is exhausted.
    ///
    /// The answer equals `solve_spec` of the two grid views and the
    /// initial pair's view, so repeated solves of the same puzzle return
    /// the same answer.  A returned sequence replays legally from the
    /// initial pair to a winning pair in at most `HORIZON` ticks, and no
    /// winning sequence is shorter; a `None` answer means no sequence of
    /// at most `HORIZON` moves wins.
    pub fn solve(&self, initial: &MazeState) -> (r: Option<Vec<Direction>>)
        requires
            self.maze_one@.wf(),
            self.maze_two@.wf(),
            self.maze_one@.state_wf(initial@.a),
            self.maze_two@.state_wf(initial@.b),
        ensures
            (match r {
                Some(sol) => Some(sol@),
                None => None,
            }) == solve_spec(self.maze_one@, self.maze_two@, initial@),
            r matches Some(sol) ==> sol@.len() <= HORIZON && replay_wins(
                self.maze_one@,
                self.maze_two@,
                initial@,
                sol@,
            ),
            r matches Some(sol) ==> (forall|q: Seq<Direction>|
                #[trigger] replay_wins(self.maze_one@, self.maze_two@, initial@, q)
                    ==> q.len() >= sol@.len()),
            r is None ==> no_win_within(self.maze_one@, self.maze_two@, initial@, HORIZON as int),
    {
        let ghost m1 = self.maze_one@;
        let ghost m2 = self.maze_two@;
        let ghost p0 = initial@;
        proof {
            lemma_solve_spec_sound(m1, m2, p0);
            lemma_solve_spec_complete(m1, m2, p0);
        }
        if initial.maze_one_state.robot_outside && initial.maze_two_state.robot_outside {
            return Some(Vec::new());
        }
        let mut visited: Vec<(SingleMazeState, SingleMazeState)> = Vec::new();
        visited.push((initial.maze_one_state.duplicate(), initial.maze_two_state.duplicate()));
        let mut frontier: Vec<MazeState> = Vec::new();
        frontier.push(
            MazeState {
                maze_one_state: initial.maze_one_state.duplicate(),
                maze_two_state: initial.maze_two_state.duplicate(),
                solution: Vec::new(),
            },
        );
        proof {
            assert(visited_views(visited@) =~= seq![p0]);
            assert(frontier_views(frontier@) =~= seq![
                SearchEntry { state: p0, path: Seq::<Direction>::empty() },
            ]);
        }
        let mut tick: usize = 0;
        while tick < HORIZON && frontier.len() > 0
            invariant
                self.maze_one@ == m1,
                self.maze_two@ == m2,
                p0 == initial@,
                m1.wf(),
                m2.wf(),
                tick <= HORIZON,
                frontier_wf(m1, m2, frontier@),
                search(m1, m2, frontier_views(frontier@), visited_views(visited@), (HORIZON
                    - tick) as nat) == solve_spec(m1, m2, p0),
            decreases HORIZON - tick,
        {
            let ghost vis0 = visited_views(visited@);
            let ghost front = frontier_views(frontier@);
            let mut next: Vec<MazeState> = Vec::new();
            proof {
                assert(frontier_views(next@) =~= Seq::<SearchEntry>::empty());
            }
            let mut i: usize = 0;
            while i < frontier.len()
                invariant
                    self.maze_one@ == m1,
                    self.maze_two@ == m2,
                    p0 == initial@,
                    m1.wf(),
                    m2.wf(),
                    i <= frontier.len(),
                    tick < HORIZON,
                    front == frontier_views(frontier@),
                    frontier_wf(m1, m2, frontier@),
                    frontier_wf(m1, m2, next@),
                    expand_layer(m1, m2, front, i as int, visited_views(visited@), frontier_views(
                        next@)) == expand_layer(m1, m2, front, 0, vis0, Seq::<SearchEntry>::empty()),
                    search(m1, m2, front, vis0, (HORIZON - tick) as nat) == solve_spec(m1, m2, p0),
                decreases frontier.len() - i,
            {
                let ghost vis_e = visited_views(visited@);
                let ghost next_e = frontier_views(next@);
                let mut j: usize = 0;
                while j < 4
                    invariant
                        self.maze_one@ == m1,
                        self.maze_two@ == m2,
                        p0 == initial@,
                        m1.wf(),
                        m2.wf(),
                        j <= 4,
                        i < frontier.len(),
                        tick < HORIZON,
                        front == frontier_views(frontier@),
                        frontier_wf(m1, m2, frontier@),
                        frontier_wf(m1, m2, next@),
                        expand_dirs(m1, m2, front[i as int], j as int, visited_views(visited@),
                            frontier_views(next@)) == expand_dirs(m1, m2, front[i as int], 0,
                            vis_e, next_e),
                        expand_layer(m1, m2, front, i as int, vis_e, next_e) == expand_layer(m1,
                            m2, front, 0, vis0, Seq::<SearchEntry>::empty()),
                        search(m1, m2, front, vis0, (HORIZON - tick) as nat) == solve_spec(m1, m2,
                            p0),
                    decreases 4 - j,
                {
                    let d = match j {
                        0 => Direction::North,
                        1 => Direction::East,
                        2 => Direction::South,
                        _ => Direction::West,
                    };
                    proof {
                        assert(d == dir_order()[j as int]);
                        assert(front[i as int] == (SearchEntry {
                            state: frontier@[i as int]@,
                            path: frontier@[i as int].solution@,
                        }));
                    }
                    let entry = &frontier[i];
                    let (ok1, ns1) = self.maze_one.step(&entry.maze_one_state, d);
                    let (ok2, ns2) = self.maze_two.step(&entry.maze_two_state, d);
                    if ok1 && ok2 {
                        let ghost q = pair_next(m1, m2, front[i as int].state, d);
                        proof {
                            assert(q == (PairView { a: ns1@, b: ns2@ }));
                        }
                        if ns1.robot_outside && ns2.robot_outside {
                            let mut path = crate::singlemaze::clone_dirs(&entry.solution);
                            path.push(d);
                            proof {
                                assert(path@ == front[i as int].path.push(d));
                                assert(expand_dirs(m1, m2, front[i as int], j as int,
                                    visited_views(visited@), frontier_views(next@))
                                    == Expansion::Found(path@));
                                assert(expand_dirs(m1, m2, front[i as int], 0, vis_e, next_e)
                                    == Expansion::Found(path@));
                                assert(expand_layer(m1, m2, front, i as int, vis_e, next_e)
                                    == Expansion::Found(path@));
                                assert(expand_layer(m1, m2, front, 0, vis0,
                                    Seq::<SearchEntry>::empty()) == Expansion::Found(path@));
                                assert(front.len() > 0);
                                assert(search(m1, m2, front, vis0, (HORIZON - tick) as nat)
                                    == Some(path@));
                                assert(solve_spec(m1, m2, p0) == Some(path@));
                                lemma_solve_spec_sound(m1, m2, p0);
                                lemma_solve_spec_complete(m1, m2, p0);
                            }
                            return Some(path);
                        }
                        if !pair_seen(&visited, &ns1, &ns2) {
                            let ghost visited_before = visited_views(visited@);
                            let ghost next_before = frontier_views(next@);
                            let mut path = crate::singlemaze::clone_dirs(&entry.solution);
                            path.push(d);
                            visited.push((ns1.duplicate(), ns2.duplicate()));
                            next.push(
                                MazeState {
                                    maze_one_state: ns1,
                                    maze_two_state: ns2,
                                    solution: path,
                                },
                            );
                            proof {
                                assert(visited_views(visited@) =~= visited_before.push(q));
                                assert(frontier_views(next@) =~= next_before.push(
                                    SearchEntry {
                                        state: q,
                                        path: front[i as int].path.push(d),
                                    },
                                ));
                            }
                        } else {
                            proof {
                                assert(visited_views(visited@).contains(q));
                            }
                        }
                    }
                    j += 1;
                }
                proof {
                    assert(expand_dirs(m1, m2, front[i as int], 4, visited_views(visited@),
                        frontier_views(next@)) == Expansion::Next(visited_views(visited@),
                        frontier_views(next@)));
                    assert(expand_layer(m1, m2, front, i as int, vis_e, next_e) == expand_layer(
                        m1, m2, front, i + 1, visited_views(visited@), frontier_views(next@)));
                }
                i += 1;
            }
            proof {
                assert(expand_layer(m1, m2, front, frontier@.len() as int, visited_views(visited@),
                    frontier_views(next@)) == Expansion::Next(visited_views(visited@),
                    frontier_views(next@)));
                assert(search(m1, m2, front, vis0, (HORIZON - tick) as nat) == search(m1, m2,
                    frontier_views(next@), visited_views(visited@), (HORIZON - tick - 1) as nat));
            }
            frontier = next;
            tick += 1;
        }
        proof {
            assert(search(m1, m2, frontier_views(frontier@), visited_views(visited@), (HORIZON
                - tick) as nat) is None);
        }
        None
    }
}

/// Every executable frontier entry of the heuristic search replays from
/// the start, is not yet winning, carries a path of the layer's length,
/// and is well-formed.
pub open spec fn frontier_replay_ok(
    m1: GridView,
    m2: GridView,
    p0: PairView,
    s: Seq<MazeState>,
    tick: int,
) -> bool {
    forall|i: int|
        0 <= i < s.len() ==> {
            let e = #[trigger] s[i];
            &&& replay(m1, m2, p0, e.solution@) == Some(e@)
            &&& !winning(e@)
            &&& e.solution@.len() == tick
            &&& pair_wf(m1, m2, e@)
        }
}

/// Some single shared move wins immediately from this pair: it is legal
/// on both grids and leaves both robots outside.
pub open spec fn one_tick_win(m1: GridView, m2: GridView, p: PairView) -> bool {
    exists|d: Direction| #[trigger] pair_legal(m1, m2, p, d) && winning(pair_next(m1, m2, p, d))
}

/// Finds the entry for one direction in a move list.
fn find_move(moves: &Vec<(Direction, bool, usize, SingleMazeState)>, d: Direction) -> (r: Option<
    usize,
>)
    ensures
        r matches Some(i) ==> i < moves@.len() && moves@[i as int].0 == d,
        r is None ==> forall|i: int| 0 <= i < moves@.len() ==> (#[trigger] moves@[i]).0 != d,
{
    let mut i: usize = 0;
    while i < moves.len()
        invariant
            i <= moves.len(),
            forall|k: int| 0 <= k < i ==> (#[trigger] moves@[k]).0 != d,
        decreases moves.len() - i,
    {
        if moves[i].0 == d {
            return Some(i);
        }
        i += 1;
    }
    None
}

impl Maze {
    /// Solves the twin maze in the optional performance mode: the same
    /// layered product search as `solve`, but each grid's transitions
    /// come from its `StateMemo`, and candidate moves whose annotated
    /// remaining depths fall too far behind the best seen so far are
    /// discarded.  That bound is a heuristic with no optimality claim:
    /// this variant may miss solutions that `solve` finds, so callers
    /// wanting the exact answer use `solve`.  What it does return is
    /// sound: a returned sequence replays legally from the initial pair
    /// to a winning pair within the horizon, so the exact search also
    /// reports the puzzle solvable and with no more moves than this
    /// variant uses.  A pair that is already winning is answered with
    /// the empty sequence, and a pair that a single shared move wins is
    /// never answered with `None`: the first layer always reaches that
    /// move, whose annotated depths are zero, so no bound prunes it.
    /// Which deeper solvable puzzles the pruning preserves is left
    /// open: the bound is a best-effort optimization with no tightness
    /// claim.
    pub fn solve_memoized(&self, initial: &MazeState) -> (r: Option<Vec<Direction>>)
        requires
            self.maze_one@.wf(),
            self.maze_two@.wf(),
            self.maze_one@.state_wf(initial@.a),
            self.maze_two@.state_wf(initial@.b),
        ensures
            r matches Some(sol) ==> sol@.len() <= HORIZON && replay_wins(
                self.maze_one@,
                self.maze_two@,
                initial@,
                sol@,
            ),
            winning(initial@) ==> (r matches Some(sol) && sol@ == Seq::<Direction>::empty()),
            one_tick_win(self.maze_one@, self.maze_two@, initial@) ==> r is Some,
            r matches Some(sol) ==> (solve_spec(self.maze_one@, self.maze_two@, initial@)
                matches Some(best) && sol@.len() >= best.len()),
    {
        let ghost m1 = self.maze_one@;
        let ghost m2 = self.maze_two@;
        let ghost p0 = initial@;
        if initial.maze_one_state.robot_outside && initial.maze_two_state.robot_outside {
            proof {
                assert(solve_spec(m1, m2, p0) == Some(Seq::<Direction>::empty()));
            }
            return Some(Vec::new());
        }
        let mut memo_one = StateMemo::new();
        let mut memo_two = StateMemo::new();
        let mut visited: Vec<(SingleMazeState, SingleMazeState)> = Vec::new();
        visited.push((initial.maze_one_state.duplicate(), initial.maze_two_state.duplicate()));
        let mut frontier: Vec<MazeState> = Vec::new();
        frontier.push(
            MazeState {
                maze_one_state: initial.maze_one_state.duplicate(),
                maze_two_state: initial.maze_two_state.duplicate(),
                solution: Vec::new(),
            },
        );
        let mut best_best_case: usize = 3 * HORIZON + 3;
        let mut best_sum: usize = 3 * HORIZON + 3;
        let mut tick: usize = 0;
        while tick < HORIZON && frontier.len() > 0
            invariant
                self.maze_one@ == m1,
                self.maze_two@ == m2,
                p0 == initial@,
                m1.wf(),
                m2.wf(),
                memo_one.wf(m1),
                memo_two.wf(m2),
                !winning(p0),
                tick <= HORIZON,
                best_best_case <= 3 * HORIZON + 3,
                best_sum <= 3 * HORIZON + 3,
                frontier_replay_ok(m1, m2, p0, frontier@, tick as int),
                tick == 0 ==> frontier@.len() == 1 && frontier@[0]@ == p0,
                tick >= 1 ==> !one_tick_win(m1, m2, p0),
            decreases HORIZON - tick,
        {
            let mut next: Vec<MazeState> = Vec::new();
            let mut i: usize = 0;
            while i < frontier.len()
                invariant
                    self.maze_one@ == m1,
                    self.maze_two@ == m2,
                    p0 == initial@,
                    m1.wf(),
                    m2.wf(),
                    memo_one.wf(m1),
                    memo_two.wf(m2),
                    !winning(p0),
                    tick < HORIZON,
                    i <= frontier.len(),
                    best_best_case <= 3 * HORIZON + 3,
                    best_sum <= 3 * HORIZON + 3,
                    frontier_replay_ok(m1, m2, p0, frontier@, tick as int),
                    frontier_replay_ok(m1, m2, p0, next@, tick as int + 1),
                    tick == 0 ==> frontier@.len() == 1 && frontier@[0]@ == p0,
                    tick == 0 && i >= 1 ==> !one_tick_win(m1, m2, p0),
                decreases frontier.len() - i,
            {
                let entry = &frontier[i];
                let ghost e_state = frontier@[i as int]@;
                let ghost e_path = frontier@[i as int].solution@;
                let moves_one = self.maze_one.next_moves(&mut memo_one, &entry.maze_one_state);
                let moves_two = self.maze_two.next_moves(&mut memo_two, &entry.maze_two_state);
                let mut j: usize = 0;
                while j < 4
                    invariant
                        self.maze_one@ == m1,
                        self.maze_two@ == m2,
                        p0 == initial@,
                        m1.wf(),
                        m2.wf(),
                        memo_one.wf(m1),
                        memo_two.wf(m2),
                        !winning(p0),
                        tick < HORIZON,
                        j <= 4,
                        i < frontier.len(),
                        e_state == frontier@[i as int]@,
                        e_path == frontier@[i as int].solution@,
                        entry.solution@ == e_path,
                        entry@ == e_state,
                        replay(m1, m2, p0, e_path) == Some(e_state),
                        !winning(e_state),
                        e_path.len() == tick as int,
                        moves_ok(m1, e_state.a, moves_one@),
                        moves_ok(m2, e_state.b, moves_two@),
                        escape_dirs_present(m1, e_state.a, moves_one@),
                        escape_dirs_present(m2, e_state.b, moves_two@),
                        outside_moves_settled(moves_one@),
                        outside_moves_settled(moves_two@),
                        best_best_case <= 3 * HORIZON + 3,
                        best_sum <= 3 * HORIZON + 3,
                        frontier_replay_ok(m1, m2, p0, next@, tick as int + 1),
                        tick == 0 && i == 0 ==> e_state == p0,
                        tick == 0 && i == 0 ==> (forall|jj: int|
                            0 <= jj < j ==> !(pair_legal(m1, m2, p0, #[trigger] dir_order()[jj])
                                && winning(pair_next(m1, m2, p0, dir_order()[jj])))),
                    decreases 4 - j,
                {
                    let d = match j {
                        0 => Direction::North,
                        1 => Direction::East,
                        2 => Direction::South,
                        _ => Direction::West,
                    };
                    proof {
                        assert(d == dir_order()[j as int]);
                    }
                    let hit_one = find_move(&moves_one, d);
                    let hit_two = find_move(&moves_two, d);
                    match (hit_one, hit_two) {
                        (Some(a), Some(b)) => {
                            let dts1 = moves_one[a].2;
                            let dts2 = moves_two[b].2;
                            let best_case = if dts1 >= dts2 {
                                dts1
                            } else {
                                dts2
                            };
                            let sum = dts1 + dts2;
                            if best_case < best_best_case {
                                best_best_case = best_case;
                            }
                            if sum < best_sum {
                                best_sum = sum;
                            }
                            if best_case <= best_best_case + 2 && sum <= best_sum + 2 {
                                let ns1 = moves_one[a].3.duplicate();
                                let ns2 = moves_two[b].3.duplicate();
                                let ghost q = pair_next(m1, m2, e_state, d);
                                proof {
                                    assert(pair_legal(m1, m2, e_state, d));
                                    assert(q == (PairView { a: ns1@, b: ns2@ }));
                                    lemma_replay_snoc(m1, m2, p0, e_path, d);
                                }
                                if ns1.robot_outside && ns2.robot_outside {
                                    let mut path = clone_dirs(&entry.solution);
                                    path.push(d);
                                    proof {
                                        assert(replay(m1, m2, p0, path@) == Some(q));
                                        assert(winning(q));
                                        lemma_solve_spec_complete(m1, m2, p0);
                                        assert(replay_wins(m1, m2, p0, path@));
                                        if solve_spec(m1, m2, p0) is None {
                                            assert(path@.len() > HORIZON);
                                        }
                                    }
                                    return Some(path);
                                }
                                proof {
                                    if tick == 0 && i == 0 {
                                        assert(!(pair_legal(m1, m2, p0, d) && winning(pair_next(
                                            m1, m2, p0, d)))) by {
                                            if pair_legal(m1, m2, p0, d) && winning(pair_next(m1,
                                                m2, p0, d)) {
                                                assert(moves_one@[a as int].3@ == m1.spec_step(
                                                    e_state.a, d).1);
                                                assert(moves_two@[b as int].3@ == m2.spec_step(
                                                    e_state.b, d).1);
                                                assert(ns1@.outside && ns2@.outside);
                                                assert(false);
                                            }
                                        }
                                    }
                                }
                                if !pair_seen(&visited, &ns1, &ns2) {
                                    visited.push((ns1.duplicate(), ns2.duplicate()));
                                    let mut path = clone_dirs(&entry.solution);
                                    path.push(d);
                                    let ghost next_before = next@;
                                    next.push(
                                        MazeState {
                                            maze_one_state: ns1,
                                            maze_two_state: ns2,
                                            solution: path,
                                        },
                                    );
                                    proof {
                                        assert(forall|k: int|
                                            0 <= k < next_before.len() ==> #[trigger] next@[k]
                                                == next_before[k]);
                                        assert(next@[next_before.len() as int]@ == q);
                                        assert(next@[next_before.len() as int].solution@
                                            == e_path.push(d));
                                    }
                                }
                            } else {
                                proof {
                                    if tick == 0 && i == 0 {
                                        assert(!(pair_legal(m1, m2, p0, d) && winning(pair_next(
                                            m1, m2, p0, d)))) by {
                                            if pair_legal(m1, m2, p0, d) && winning(pair_next(m1,
                                                m2, p0, d)) {
                                                assert(moves_one@[a as int].3@ == m1.spec_step(
                                                    e_state.a, d).1);
                                                assert(moves_two@[b as int].3@ == m2.spec_step(
                                                    e_state.b, d).1);
                                                assert(moves_one@[a as int].3@.outside);
                                                assert(moves_two@[b as int].3@.outside);
                                                assert(dts1 == 0 && dts2 == 0);
                                                assert(false);
                                            }
                                        }
                                    }
                                }
                            }
                        },
                        _ => {
                            proof {
                                if tick == 0 && i == 0 {
                                    assert(!(pair_legal(m1, m2, p0, d) && winning(pair_next(m1,
                                        m2, p0, d)))) by {
                                        if pair_legal(m1, m2, p0, d) && winning(pair_next(m1, m2,
                                            p0, d)) {
                                            assert(e_state.a.outside || m1.has_exit(
                                                e_state.a.robot, d)) by {
                                                if !e_state.a.outside && !m1.has_exit(
                                                    e_state.a.robot, d) {
                                                    assert(!m1.spec_step(e_state.a, d).1.outside);
                                                }
                                            }
                                            assert(e_state.b.outside || m2.has_exit(
                                                e_state.b.robot, d)) by {
                                                if !e_state.b.outside && !m2.has_exit(
                                                    e_state.b.robot, d) {
                                                    assert(!m2.spec_step(e_state.b, d).1.outside);
                                                }
                                            }
                                            assert(dir_present(moves_one@, d));
                                            assert(dir_present(moves_two@, d));
                                            let x1 = choose|x: int|
                                                0 <= x < moves_one@.len() && (
                                                #[trigger] moves_one@[x]).0 == d;
                                            let x2 = choose|x: int|
                                                0 <= x < moves_two@.len() && (
                                                #[trigger] moves_two@[x]).0 == d;
                                            assert(hit_one is Some && hit_two is Some);
                                            assert(false);
                                        }
                                    }
                                }
                            }
                        },
                    }
                    j += 1;
                }
                proof {
                    if tick == 0 && i == 0 {
                        assert(!one_tick_win(m1, m2, p0)) by {
                            if one_tick_win(m1, m2, p0) {
                                let d = choose|d: Direction|
                                    pair_legal(m1, m2, p0, d) && winning(pair_next(m1, m2, p0,
                                        d));
                                lemma_dir_indexed(d);
                                let jj = choose|jj: int| 0 <= jj < 4 && dir_order()[jj] == d;
                                assert(!(pair_legal(m1, m2, p0, dir_order()[jj]) && winning(
                                    pair_next(m1, m2, p0, dir_order()[jj]))));
                            }
                        }
                    }
                }
                i += 1;
            }
            frontier = next;
            tick += 1;
        }
        proof {
            assert(tick >= 1);
            assert(!one_tick_win(m1, m2, p0));
        }
        None
    }
}

} // verus!
