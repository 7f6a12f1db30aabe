//! The search engine: breadth-first exploration of the state graph induced
//! by the move rule engine, with duplicate-state suppression, and the path
//! reconstructor that renders a solution as a move sequence.

use vstd::prelude::*;
use vstd::set_lib::set_int_range;
use vstd::set_lib::lemma_int_range;
use vstd::set_lib::lemma_len_subset;
use crate::geom::{Pos, Direction, in_bounds, move_of};
use crate::board::{Board, BoardState, pos_set, same_board, boards_equal};
use crate::engine::{can_step, step, add_move};

verus! {

/// The state reached by playing the moves `ms` in order from `s`.
pub open spec fn play(s: BoardState, ms: Seq<Direction>) -> BoardState
    decreases ms.len(),
{
    if ms.len() == 0 {
        s
    } else {
        step(play(s, ms.drop_last()), ms.last())
    }
}

/// Whether every move of `ms` is legal in the state it is played from.
pub open spec fn valid_play(s: BoardState, ms: Seq<Direction>) -> bool
    decreases ms.len(),
{
    if ms.len() == 0 {
        true
    } else {
        valid_play(s, ms.drop_last()) && can_step(play(s, ms.drop_last()), ms.last())
    }
}

/// A goal state: the blocks occupy exactly the target cells.
pub open spec fn is_goal(s: BoardState, tset: Set<(int, int)>) -> bool {
    s.blocks == tset
}

/// `ms` solves the puzzle: every move is legal and the final state is a goal.
pub open spec fn solves(s: BoardState, tset: Set<(int, int)>, ms: Seq<Direction>) -> bool {
    valid_play(s, ms) && is_goal(play(s, ms), tset)
}

/// One explored state: the board snapshot, the number of moves from the
/// start, the move that produced it, the index of the node it was produced
/// from, and (for the proofs) the whole move sequence from the start.
pub struct Node {
    pub board: Board,
    pub depth: usize,
    pub last_move: Direction,
    pub parent: usize,
    pub path: Ghost<Seq<Direction>>,
}

pub open spec fn st_of(ns: Seq<Node>, i: int) -> BoardState {
    ns[i].board@
}

pub open spec fn dep(ns: Seq<Node>, i: int) -> int {
    ns[i].depth as int
}

/// The parent links form a tree rooted at node 0, and each node's path is
/// its parent's path extended by its own last move.
pub open spec fn parent_ok(ns: Seq<Node>, i: int) -> bool {
    &&& ns[i].path@.len() == ns[i].depth as int
    &&& (i == 0 ==> ns[i].depth == 0)
    &&& (i > 0 ==> ns[i].parent < i && ns[i].depth as int == ns[ns[i].parent as int].depth as int
        + 1 && ns[i].path@ == ns[ns[i].parent as int].path@.push(ns[i].last_move))
}

pub open spec fn parents_ok(ns: Seq<Node>) -> bool {
    forall|i: int| 0 <= i < ns.len() ==> #[trigger] parent_ok(ns, i)
}

/// All coordinates inside a grid of the given size.
pub open spec fn rect_set(size: (int, int)) -> Set<(int, int)> {
    Set::new(|q: (int, int)| in_bounds(q, size))
}

/// A state the search may reach from `start`: the fixed parts are the
/// start's, the blocks form a finite set of start-block or in-bounds cells,
/// and the player is in bounds.
pub open spec fn state_ok(start: BoardState, st: BoardState) -> bool {
    &&& st.size == start.size
    &&& st.walls == start.walls
    &&& st.targets == start.targets
    &&& st.blocks.finite()
    &&& st.blocks.subset_of(rect_set(start.size).union(start.blocks))
    &&& in_bounds(st.player, start.size)
}

/// All states the search may reach from `start`; a finite universe that
/// bounds the search.
pub open spec fn u_states(start: BoardState) -> Set<BoardState> {
    Set::new(|st: BoardState| state_ok(start, st))
}

/// Every stored node is a well-formed board reached from the start by its
/// own path, of length equal to its depth.
pub open spec fn node_ok(ns: Seq<Node>, start: BoardState, i: int) -> bool {
    &&& parent_ok(ns, i)
    &&& ns[i].board.wf()
    &&& state_ok(start, st_of(ns, i))
    &&& valid_play(start, ns[i].path@)
    &&& play(start, ns[i].path@) == st_of(ns, i)
    &&& dep(ns, i) <= i
}

/// The invariant of the node arena: node 0 is the start, every node is
/// reached by its path, depths never decrease along the arena (the frontier
/// is in breadth-first order), and no two nodes hold the same state (each
/// state is enqueued at most once).
pub open spec fn nodes_ok(ns: Seq<Node>, start: BoardState) -> bool {
    &&& ns.len() >= 1
    &&& st_of(ns, 0) == start
    &&& forall|i: int| 0 <= i < ns.len() ==> #[trigger] node_ok(ns, start, i)
    &&& forall|i: int, j: int|
        0 <= i <= j < ns.len() ==> #[trigger] dep(ns, i) <= #[trigger] dep(ns, j)
    &&& forall|i: int, j: int|
        0 <= i < j < ns.len() ==> #[trigger] st_of(ns, i) != #[trigger] st_of(ns, j)
}

/// Some stored node, of depth at most `dmax`, holds the state `s`.
pub open spec fn has_state(ns: Seq<Node>, s: BoardState, dmax: int) -> bool {
    exists|j: int| 0 <= j < ns.len() && #[trigger] st_of(ns, j) == s && dep(ns, j) <= dmax
}

/// Every node before `h` has been expanded: none of its legal successors is
/// a goal (else the search would have stopped), and each is stored with a
/// depth at most one more than its producer's.
pub open spec fn expanded(ns: Seq<Node>, tset: Set<(int, int)>, h: int) -> bool {
    forall|i: int, d: Direction|
        0 <= i < h && #[trigger] can_step(st_of(ns, i), d) ==> !is_goal(step(st_of(ns, i), d), tset)
            && has_state(ns, step(st_of(ns, i), d), dep(ns, i) + 1)
}

/// No stored node is a goal state.
pub open spec fn no_goal_nodes(ns: Seq<Node>, tset: Set<(int, int)>) -> bool {
    forall|i: int| 0 <= i < ns.len() ==> !is_goal(#[trigger] st_of(ns, i), tset)
}

/// No stored node is more than one move deeper than node `c`.
pub open spec fn depth_cap(ns: Seq<Node>, c: int) -> bool {
    forall|j: int| 0 <= j < ns.len() ==> #[trigger] dep(ns, j) <= dep(ns, c) + 1
}

/// The search never stores one board content twice: in any arena the
/// invariants admit, two different nodes hold two different states, so the
/// visited set grows by one with every enqueued node.
pub proof fn lemma_states_enqueued_once(ns: Seq<Node>, start: BoardState, i: int, j: int)
    requires
        nodes_ok(ns, start),
        0 <= i < j < ns.len(),
    ensures
        st_of(ns, i) != st_of(ns, j),
{
}

/// Every prefix of a valid play is valid, and the play extends one legal
/// step at a time.
pub proof fn lemma_play_take(s: BoardState, ms: Seq<Direction>, k: int)
    requires
        valid_play(s, ms),
        0 <= k <= ms.len(),
    ensures
        valid_play(s, ms.take(k)),
        k < ms.len() ==> can_step(play(s, ms.take(k)), ms[k]) && play(s, ms.take(k + 1)) == step(
            play(s, ms.take(k)),
            ms[k],
        ),
    decreases ms.len(),
{
    if k == ms.len() {
        assert(ms.take(k) =~= ms);
    } else {
        let pre = ms.drop_last();
        if k == ms.len() - 1 {
            assert(ms.take(k) =~= pre);
            assert(ms.take(k + 1) =~= ms);
            assert(ms.last() == ms[k]);
        } else {
            assert(ms.take(k) =~= pre.take(k));
            assert(ms.take(k + 1) =~= pre.take(k + 1));
            lemma_play_take(s, pre, k);
        }
    }
}

/// Appending one legal move to a valid play keeps it valid and steps the
/// final state once.
pub proof fn lemma_valid_play_push(s: BoardState, ms: Seq<Direction>, d: Direction)
    requires
        valid_play(s, ms),
        can_step(play(s, ms), d),
    ensures
        valid_play(s, ms.push(d)),
        play(s, ms.push(d)) == step(play(s, ms), d),
{
    assert(ms.push(d).drop_last() =~= ms);
    assert(ms.push(d).last() == d);
}

/// A legal step from a reachable state stays in the finite universe of
/// reachable states.
proof fn lemma_step_state_ok(start: BoardState, st: BoardState, d: Direction)
    requires
        state_ok(start, st),
        can_step(st, d),
    ensures
        state_ok(start, step(st, d)),
{
    broadcast use vstd::set::group_set_axioms;

    let st2 = step(st, d);
    let np = move_of(st.player, d);
    let nb = move_of(np, d);
    if st.blocks.contains(np) {
        assert(st2.blocks == st.blocks.remove(np).insert(nb));
        assert(in_bounds(nb, st.size));
        assert forall|q: (int, int)| st2.blocks.contains(q) implies rect_set(start.size).union(
            start.blocks,
        ).contains(q) by {
            if q == nb {
                assert(rect_set(start.size).contains(q));
            } else {
                assert(st.blocks.contains(q));
            }
        }
    }
}

/// A board state's coordinate-set view of any position list is finite.
pub proof fn lemma_pos_set_finite(v: Seq<Pos>)
    ensures
        pos_set(v).finite(),
{
    broadcast use vstd::set::group_set_axioms;
    broadcast use vstd::seq_lib::seq_to_set_is_finite;

    let m = v.map_values(|p: Pos| p@);
    assert(pos_set(v) =~= m.to_set()) by {
        assert forall|q: (int, int)| pos_set(v).contains(q) implies m.to_set().contains(q) by {
            let k = choose|k: int| 0 <= k < v.len() && (#[trigger] v[k])@ == q;
            assert(m[k] == q);
            assert(m.contains(q));
        };
        assert forall|q: (int, int)| m.to_set().contains(q) implies pos_set(v).contains(q) by {
            let k = choose|k: int| 0 <= k < m.len() && m[k] == q;
            assert((#[trigger] v[k])@ == q);
        };
    };
    assert(m.to_set().finite());
}

/// The coordinates of a bounded grid form a finite set.
proof fn lemma_rect_set_finite(sx: int, sy: int)
    ensures
        rect_set((sx, sy)).finite(),
    decreases sy + 1,
{
    broadcast use vstd::set::group_set_axioms;

    if sx < 0 || sy < 0 {
        assert(rect_set((sx, sy)) =~= Set::empty());
    } else {
        lemma_rect_set_finite(sx, sy - 1);
        lemma_int_range(0, sx + 1);
        let row = set_int_range(0, sx + 1).map(|x: int| (x, sy));
        set_int_range(0, sx + 1).lemma_map_finite(|x: int| (x, sy));
        assert(rect_set((sx, sy)) =~= rect_set((sx, sy - 1)).union(row)) by {
            assert forall|q: (int, int)| rect_set((sx, sy)).contains(q) implies rect_set(
                (sx, sy - 1),
            ).union(row).contains(q) by {
                if q.1 == sy {
                    assert(set_int_range(0, sx + 1).contains(q.0));
                    assert(q == (|x: int| (x, sy))(q.0));
                    assert(row.contains(q));
                }
            };
            assert forall|q: (int, int)| rect_set((sx, sy - 1)).union(row).contains(
                q,
            ) implies rect_set((sx, sy)).contains(q) by {
                if row.contains(q) {
                    let x = choose|x: int|
                        #[trigger] set_int_range(0, sx + 1).contains(x) && q == (
                        |x2: int| (x2, sy))(x);
                }
            };
        };
    }
}

/// The finite subsets of `u`.
pub open spec fn subsets_of(u: Set<(int, int)>) -> Set<Set<(int, int)>> {
    Set::new(|s: Set<(int, int)>| s.finite() && s.subset_of(u))
}

/// The finite subsets of a finite coordinate set form a finite set of sets.
proof fn lemma_subsets_of_finite(u: Set<(int, int)>)
    requires
        u.finite(),
    ensures
        subsets_of(u).finite(),
    decreases u.len(),
{
    broadcast use vstd::set::group_set_axioms;

    if u.len() == 0 {
        u.lemma_len0_is_empty();
        assert(subsets_of(u) =~= Set::empty().insert(Set::<(int, int)>::empty())) by {
            assert forall|s: Set<(int, int)>| subsets_of(u).contains(s) implies Set::empty().insert(
                Set::<(int, int)>::empty(),
            ).contains(s) by {
                assert(s =~= Set::<(int, int)>::empty());
            };
            assert(Set::<(int, int)>::empty().finite());
        };
    } else {
        assert(exists|x: (int, int)| u.contains(x)) by {
            if !(exists|x: (int, int)| u.contains(x)) {
                assert(u =~= Set::empty());
            }
        };
        let x = u.choose();
        assert(u.contains(x));
        let u2 = u.remove(x);
        lemma_subsets_of_finite(u2);
        let addx = |s: Set<(int, int)>| s.insert(x);
        let withx = subsets_of(u2).map(addx);
        subsets_of(u2).lemma_map_finite(addx);
        assert(subsets_of(u) =~= subsets_of(u2).union(withx)) by {
            assert forall|s: Set<(int, int)>| subsets_of(u).contains(s) implies subsets_of(
                u2,
            ).union(withx).contains(s) by {
                if s.contains(x) {
                    let s2 = s.remove(x);
                    assert(s2.finite());
                    assert(s2.subset_of(u2));
                    assert(subsets_of(u2).contains(s2));
                    assert(s =~= addx(s2));
                    assert(withx.contains(s));
                } else {
                    assert(s.subset_of(u2));
                }
            };
            assert forall|s: Set<(int, int)>| subsets_of(u2).union(withx).contains(
                s,
            ) implies subsets_of(u).contains(s) by {
                if withx.contains(s) {
                    let s2 = choose|s2: Set<(int, int)>|
                        subsets_of(u2).contains(s2) && s == addx(s2);
                    assert(s == s2.insert(x));
                    assert(s.subset_of(u));
                } else {
                    assert(s.subset_of(u));
                }
            };
        };
    }
}

/// The pairs of a finite set of block sets and a finite set of player
/// positions form a finite set.
proof fn lemma_product_finite(sa: Set<Set<(int, int)>>, sb: Set<(int, int)>)
    requires
        sa.finite(),
        sb.finite(),
    ensures
        Set::new(|p: (Set<(int, int)>, (int, int))| sa.contains(p.0) && sb.contains(p.1)).finite(),
    decreases sa.len(),
{
    broadcast use vstd::set::group_set_axioms;

    let prod = Set::new(|p: (Set<(int, int)>, (int, int))| sa.contains(p.0) && sb.contains(p.1));
    if sa.len() == 0 {
        sa.lemma_len0_is_empty();
        assert(prod =~= Set::empty());
    } else {
        assert(exists|x: Set<(int, int)>| sa.contains(x)) by {
            if !(exists|x: Set<(int, int)>| sa.contains(x)) {
                assert(sa =~= Set::empty());
            }
        };
        let x = sa.choose();
        assert(sa.contains(x));
        let sa2 = sa.remove(x);
        lemma_product_finite(sa2, sb);
        let prod2 = Set::new(
            |p: (Set<(int, int)>, (int, int))| sa2.contains(p.0) && sb.contains(p.1),
        );
        let pairx = |b: (int, int)| (x, b);
        let rowx = sb.map(pairx);
        sb.lemma_map_finite(pairx);
        assert(prod =~= prod2.union(rowx)) by {
            assert forall|p: (Set<(int, int)>, (int, int))| prod.contains(p) implies prod2.union(
                rowx,
            ).contains(p) by {
                if p.0 == x {
                    assert(p == pairx(p.1));
                    assert(rowx.contains(p));
                }
            };
            assert forall|p: (Set<(int, int)>, (int, int))| prod2.union(rowx).contains(
                p,
            ) implies prod.contains(p) by {
                if rowx.contains(p) {
                    let b = choose|b: (int, int)| sb.contains(b) && p == pairx(b);
                }
            };
        };
    }
}

/// The universe of states reachable from a start with finitely many blocks
/// is finite.
proof fn lemma_u_states_finite(start: BoardState)
    requires
        start.blocks.finite(),
    ensures
        u_states(start).finite(),
{
    broadcast use vstd::set::group_set_axioms;

    let up = rect_set(start.size).union(start.blocks);
    lemma_rect_set_finite(start.size.0, start.size.1);
    lemma_subsets_of_finite(up);
    let prod = Set::new(
        |p: (Set<(int, int)>, (int, int))|
            subsets_of(up).contains(p.0) && rect_set(start.size).contains(p.1),
    );
    lemma_product_finite(subsets_of(up), rect_set(start.size));
    let f = |p: (Set<(int, int)>, (int, int))|
        BoardState {
            size: start.size,
            walls: start.walls,
            targets: start.targets,
            blocks: p.0,
            player: p.1,
        };
    prod.lemma_map_finite(f);
    assert(u_states(start) =~= prod.map(f)) by {
        assert forall|st: BoardState| u_states(start).contains(st) implies prod.map(f).contains(
            st,
        ) by {
            let p = (st.blocks, st.player);
            assert(prod.contains(p));
            assert(st == f(p));
        };
        assert forall|st: BoardState| prod.map(f).contains(st) implies u_states(start).contains(
            st,
        ) by {
            let p = choose|p: (Set<(int, int)>, (int, int))| prod.contains(p) && st == f(p);
        };
    };
}

/// The arena can never outgrow the finite universe of reachable states,
/// because no state is stored twice.
proof fn lemma_nodes_len_bounded(ns: Seq<Node>, start: BoardState)
    requires
        nodes_ok(ns, start),
        start.blocks.finite(),
    ensures
        ns.len() <= u_states(start).len(),
{
    broadcast use vstd::set::group_set_axioms;

    let sts = Seq::new(ns.len(), |i: int| st_of(ns, i));
    assert(sts.no_duplicates()) by {
        assert forall|i: int, j: int|
            0 <= i < sts.len() && 0 <= j < sts.len() && i != j implies sts[i] != sts[j] by {
            if i < j {
                assert(st_of(ns, i) != st_of(ns, j));
            } else {
                assert(st_of(ns, j) != st_of(ns, i));
            }
        }
    };
    sts.unique_seq_to_set();
    lemma_u_states_finite(start);
    assert(sts.to_set().subset_of(u_states(start))) by {
        assert forall|st: BoardState| sts.to_set().contains(st) implies u_states(start).contains(
            st,
        ) by {
            let i = choose|i: int| 0 <= i < sts.len() && sts[i] == st;
            assert(node_ok(ns, start, i));
        };
    };
    lemma_len_subset(sts.to_set(), u_states(start));
}

/// After an exhausted search (every node expanded, none a goal), no move
/// sequence can reach a state that is not already stored.
proof fn lemma_reachable_stored(
    ns: Seq<Node>,
    start: BoardState,
    tset: Set<(int, int)>,
    ms: Seq<Direction>,
)
    requires
        nodes_ok(ns, start),
        expanded(ns, tset, ns.len() as int),
        valid_play(start, ms),
    ensures
        exists|j: int| 0 <= j < ns.len() && #[trigger] st_of(ns, j) == play(start, ms),
    decreases ms.len(),
{
    if ms.len() == 0 {
        assert(st_of(ns, 0) == play(start, ms));
    } else {
        let pre = ms.drop_last();
        lemma_reachable_stored(ns, start, tset, pre);
        let j = choose|j: int| 0 <= j < ns.len() && #[trigger] st_of(ns, j) == play(start, pre);
        assert(can_step(st_of(ns, j), ms.last()));
        assert(has_state(ns, step(st_of(ns, j), ms.last()), dep(ns, j) + 1));
        let j2 = choose|j2: int|
            0 <= j2 < ns.len() && #[trigger] st_of(ns, j2) == step(st_of(ns, j), ms.last()) && dep(
                ns,
                j2,
            ) <= dep(ns, j) + 1;
        assert(st_of(ns, j2) == play(start, ms));
    }
}

/// After an exhausted search there is no solution at all.
pub proof fn lemma_no_solution(ns: Seq<Node>, start: BoardState, tset: Set<(int, int)>)
    requires
        nodes_ok(ns, start),
        expanded(ns, tset, ns.len() as int),
        no_goal_nodes(ns, tset),
    ensures
        forall|ms: Seq<Direction>| !solves(start, tset, ms),
{
    assert forall|ms: Seq<Direction>| !solves(start, tset, ms) by {
        if solves(start, tset, ms) {
            if ms.len() == 0 {
                assert(st_of(ns, 0) == start);
                assert(!is_goal(st_of(ns, 0), tset));
            } else {
                let pre = ms.drop_last();
                lemma_reachable_stored(ns, start, tset, pre);
                let j = choose|j: int|
                    0 <= j < ns.len() && #[trigger] st_of(ns, j) == play(start, pre);
                assert(can_step(st_of(ns, j), ms.last()));
                assert(!is_goal(step(st_of(ns, j), ms.last()), tset));
                assert(step(st_of(ns, j), ms.last()) == play(start, ms));
            }
        }
    }
}

/// Every solution has a prefix that solves the puzzle and passes through no
/// earlier goal state.
proof fn lemma_min_solution_prefix(start: BoardState, tset: Set<(int, int)>, ms: Seq<Direction>)
    requires
        solves(start, tset, ms),
    ensures
        exists|k: int|
            0 <= k <= ms.len() && #[trigger] solves(start, tset, ms.take(k)) && (forall|k2: int|
                0 <= k2 < k ==> !is_goal(play(start, #[trigger] ms.take(k2)), tset)),
    decreases ms.len(),
{
    if forall|k2: int| 0 <= k2 < ms.len() ==> !is_goal(play(start, #[trigger] ms.take(k2)), tset) {
        let k = ms.len() as int;
        assert(ms.take(k) =~= ms);
        assert(solves(start, tset, ms.take(k)));
    } else {
        let k2 = choose|k2: int|
            0 <= k2 < ms.len() && is_goal(play(start, #[trigger] ms.take(k2)), tset);
        lemma_play_take(start, ms, k2);
        assert(solves(start, tset, ms.take(k2)));
        lemma_min_solution_prefix(start, tset, ms.take(k2));
        let k = choose|k: int|
            0 <= k <= ms.take(k2).len() && #[trigger] solves(start, tset, ms.take(k2).take(k)) && (
            forall|k3: int|
                0 <= k3 < k ==> !is_goal(play(start, #[trigger] ms.take(k2).take(k3)), tset));
        assert(ms.take(k2).take(k) =~= ms.take(k));
        assert(solves(start, tset, ms.take(k)));
        assert forall|k3: int| 0 <= k3 < k implies !is_goal(
            play(start, #[trigger] ms.take(k3)),
            tset,
        ) by {
            assert(ms.take(k2).take(k3) =~= ms.take(k3));
            assert(!is_goal(play(start, ms.take(k2).take(k3)), tset));
        }
    }
}

/// Walking a goal-prefix-free solution forward through the expanded nodes:
/// it must leave the expanded region through a pending node whose depth is
/// below the solution's length.
proof fn lemma_walk(
    ns: Seq<Node>,
    start: BoardState,
    tset: Set<(int, int)>,
    h: int,
    ms: Seq<Direction>,
    k: int,
    j: int,
)
    requires
        nodes_ok(ns, start),
        expanded(ns, tset, h),
        no_goal_nodes(ns, tset),
        0 <= h <= ns.len(),
        solves(start, tset, ms),
        forall|k2: int| 0 <= k2 < ms.len() ==> !is_goal(play(start, #[trigger] ms.take(k2)), tset),
        0 <= k <= ms.len(),
        0 <= j < ns.len(),
        st_of(ns, j) == play(start, ms.take(k)),
        dep(ns, j) <= k,
    ensures
        exists|i: int| h <= i < ns.len() && #[trigger] dep(ns, i) < ms.len(),
    decreases ms.len() - k,
{
    if k == ms.len() {
        assert(ms.take(k) =~= ms);
        assert(is_goal(st_of(ns, j), tset));
        assert(false);
    } else if j >= h {
        assert(h <= j < ns.len() && dep(ns, j) < ms.len());
    } else {
        lemma_play_take(start, ms, k);
        assert(can_step(st_of(ns, j), ms[k]));
        assert(has_state(ns, step(st_of(ns, j), ms[k]), dep(ns, j) + 1));
        let j2 = choose|j2: int|
            0 <= j2 < ns.len() && #[trigger] st_of(ns, j2) == step(st_of(ns, j), ms[k]) && dep(
                ns,
                j2,
            ) <= dep(ns, j) + 1;
        assert(st_of(ns, j2) == play(start, ms.take(k + 1)));
        lemma_walk(ns, start, tset, h, ms, k + 1, j2);
    }
}

/// While the node at `h` is the shallowest pending node, no solution can be
/// shorter than one move past its depth.
proof fn lemma_optimal(
    ns: Seq<Node>,
    start: BoardState,
    tset: Set<(int, int)>,
    h: int,
    ms: Seq<Direction>,
)
    requires
        nodes_ok(ns, start),
        expanded(ns, tset, h),
        no_goal_nodes(ns, tset),
        0 <= h <= ns.len(),
        solves(start, tset, ms),
    ensures
        h < ns.len() ==> dep(ns, h) < ms.len(),
{
    lemma_min_solution_prefix(start, tset, ms);
    let k0 = choose|k: int|
        0 <= k <= ms.len() && #[trigger] solves(start, tset, ms.take(k)) && (forall|k2: int|
            0 <= k2 < k ==> !is_goal(play(start, #[trigger] ms.take(k2)), tset));
    let msp = ms.take(k0);
    assert forall|k2: int| 0 <= k2 < msp.len() implies !is_goal(
        play(start, #[trigger] msp.take(k2)),
        tset,
    ) by {
        assert(msp.take(k2) =~= ms.take(k2));
        assert(!is_goal(play(start, ms.take(k2)), tset));
    }
    assert(msp.take(0) =~= Seq::<Direction>::empty());
    assert(node_ok(ns, start, 0));
    assert(st_of(ns, 0) == play(start, msp.take(0)));
    lemma_walk(ns, start, tset, h, msp, 0, 0);
    if h < ns.len() {
        let i = choose|i: int| h <= i < ns.len() && #[trigger] dep(ns, i) < msp.len();
        assert(dep(ns, h) <= dep(ns, i));
        assert(msp.len() <= ms.len());
    }
}

/// The index of a stored node holding the given board's state, if any: the
/// visited-set lookup of the search.
pub fn find_node(nodes: &Vec<Node>, b: &Board) -> (r: Option<usize>)
    ensures
        r is Some <==> exists|j: int| 0 <= j < nodes@.len() && #[trigger] st_of(nodes@, j) == b@,
        (r matches Some(j) ==> j < nodes@.len() && st_of(nodes@, j as int) == b@),
{
    let mut k: usize = 0;
    while k < nodes.len()
        invariant
            k <= nodes@.len(),
            forall|m: int| 0 <= m < k ==> #[trigger] st_of(nodes@, m) != b@,
        decreases nodes@.len() - k,
    {
        if boards_equal(&nodes[k].board, b) {
            assert(st_of(nodes@, k as int) == b@);
            return Some(k);
        }
        k += 1;
    }
    None
}

/// Walks the parent chain from node `i` back to the root, collecting each
/// node's last move, and returns the moves in playing order: the move
/// sequence that produced node `i`.
pub fn collect_moves(nodes: &Vec<Node>, i: usize) -> (r: Vec<Direction>)
    requires
        parents_ok(nodes@),
        i < nodes@.len(),
    ensures
        r@ == nodes@[i as int].path@,
{
    let ghost goal_path = nodes@[i as int].path@;
    let mut acc: Vec<Direction> = Vec::new();
    let mut cur = i;
    proof {
        assert(parent_ok(nodes@, i as int));
        assert(goal_path =~= nodes@[cur as int].path@ + acc@.reverse());
    }
    while cur != 0
        invariant
            parents_ok(nodes@),
            cur < nodes@.len(),
            goal_path == nodes@[i as int].path@,
            goal_path == nodes@[cur as int].path@ + acc@.reverse(),
        decreases cur,
    {
        assert(parent_ok(nodes@, cur as int));
        let ghost acc0 = acc@;
        let ghost cur0 = cur as int;
        acc.push(nodes[cur].last_move);
        cur = nodes[cur].parent;
        proof {
            let last = nodes@[cur0].last_move;
            let ppath = nodes@[cur as int].path@;
            assert(nodes@[cur0].path@ == ppath.push(last));
            assert(acc0.push(last).reverse() =~= seq![last] + acc0.reverse());
            assert(ppath.push(last) + acc0.reverse() =~= ppath + (seq![last] + acc0.reverse()));
            assert(goal_path == ppath + acc@.reverse());
        }
    }
    proof {
        assert(parent_ok(nodes@, 0));
        assert(nodes@[0].path@.len() == 0);
        assert(nodes@[0].path@ =~= Seq::<Direction>::empty());
        assert(goal_path =~= acc@.reverse());
    }
    let n = acc.len();
    let mut r: Vec<Direction> = Vec::new();
    let mut k = n;
    while k > 0
        invariant
            k <= n,
            n == acc@.len(),
            r@.len() == n - k,
            forall|m: int| 0 <= m < r@.len() ==> r@[m] == acc@[n - 1 - m],
        decreases k,
    {
        k -= 1;
        r.push(acc[k]);
    }
    proof {
        assert(r@ =~= acc@.reverse());
    }
    r
}

/// Tries one direction from the node at `cur`: asks the move rule engine for
/// the successor board, returns the reconstructed solution when it is a goal,
/// and otherwise stores it unless an equal state is already stored. Returns
/// `None` when no goal was found, with the successor (if legal) recorded as
/// stored and not a goal; returns the solution with its optimality guarantee
/// when the goal was found.
fn expand(
    nodes: &mut Vec<Node>,
    cur: usize,
    d: Direction,
    s: &Vec<Pos>,
    Ghost(start): Ghost<BoardState>,
    Ghost(tset): Ghost<Set<(int, int)>>,
) -> (r: Option<Vec<Direction>>)
    requires
        tset == pos_set(s@),
        cur < old(nodes)@.len(),
        nodes_ok(old(nodes)@, start),
        expanded(old(nodes)@, tset, cur as int),
        no_goal_nodes(old(nodes)@, tset),
        depth_cap(old(nodes)@, cur as int),
    ensures
        final(nodes)@.len() >= old(nodes)@.len(),
        forall|j: int| 0 <= j < old(nodes)@.len() ==> final(nodes)@[j] == old(nodes)@[j],
        nodes_ok(final(nodes)@, start),
        expanded(final(nodes)@, tset, cur as int),
        no_goal_nodes(final(nodes)@, tset),
        depth_cap(final(nodes)@, cur as int),
        (r is None ==> (can_step(st_of(old(nodes)@, cur as int), d) ==> !is_goal(
            step(st_of(old(nodes)@, cur as int), d),
            tset,
        ) && has_state(
            final(nodes)@,
            step(st_of(old(nodes)@, cur as int), d),
            dep(old(nodes)@, cur as int) + 1,
        ))),
        (r matches Some(mv) ==> {
            &&& mv@.len() == dep(old(nodes)@, cur as int) + 1
            &&& solves(start, tset, mv@)
            &&& forall|ms: Seq<Direction>| solves(start, tset, ms) ==> mv@.len() <= ms.len()
        }),
{
    let ghost ns0 = nodes@;
    proof {
        assert(node_ok(ns0, start, cur as int));
    }
    let moved = add_move(&nodes[cur].board, d);
    match moved {
        None => {
            assert(!can_step(st_of(ns0, cur as int), d));
            None
        },
        Some(nb) => {
            let ghost stepped = step(st_of(ns0, cur as int), d);
            assert(nb@ == stepped);
            if same_board(&nb.blocks, s) {
                // a goal successor: reconstruct the move sequence
                assert(is_goal(stepped, tset));
                proof {
                    assert forall|ii: int| 0 <= ii < nodes@.len() implies #[trigger] parent_ok(
                        nodes@,
                        ii,
                    ) by {
                        assert(node_ok(nodes@, start, ii));
                    }
                }
                let mut mv = collect_moves(nodes, cur);
                mv.push(d);
                proof {
                    let path = ns0[cur as int].path@;
                    assert(mv@ == path.push(d));
                    lemma_valid_play_push(start, path, d);
                    assert(solves(start, tset, mv@));
                    assert(mv@.len() == dep(ns0, cur as int) + 1);
                    assert forall|ms: Seq<Direction>| solves(start, tset, ms) implies mv@.len()
                        <= ms.len() by {
                        lemma_optimal(ns0, start, tset, cur as int, ms);
                    }
                }
                Some(mv)
            } else {
                assert(!is_goal(stepped, tset));
                match find_node(nodes, &nb) {
                    Some(j) => {
                        proof {
                            assert(st_of(nodes@, j as int) == stepped);
                            assert(dep(nodes@, j as int) <= dep(nodes@, cur as int) + 1);
                            assert(has_state(nodes@, stepped, dep(ns0, cur as int) + 1));
                        }
                        None
                    },
                    None => {
                        let nlen = nodes.len();
                        proof {
                            assert(cur < nlen);
                            assert(dep(ns0, cur as int) <= cur as int);
                        }
                        let depth = nodes[cur].depth + 1;
                        let ghost npath = ns0[cur as int].path@.push(d);
                        let node = Node {
                            board: nb,
                            depth,
                            last_move: d,
                            parent: cur,
                            path: Ghost(npath),
                        };
                        nodes.push(node);
                        proof {
                            let ns1 = nodes@;
                            let n0 = ns0.len() as int;
                            assert(ns1 == ns0.push(node));
                            assert(ns1[n0] == node);
                            assert forall|jj: int| 0 <= jj < n0 implies ns1[jj] == ns0[jj] by {}
                            lemma_valid_play_push(start, ns0[cur as int].path@, d);
                            lemma_step_state_ok(start, st_of(ns0, cur as int), d);
                            assert(parent_ok(ns1, n0));
                            assert(node_ok(ns1, start, n0));
                            assert forall|ii: int| 0 <= ii < ns1.len() implies #[trigger] node_ok(
                                ns1,
                                start,
                                ii,
                            ) by {
                                if ii < n0 {
                                    assert(node_ok(ns0, start, ii));
                                }
                            }
                            assert forall|ii: int, jj: int|
                                0 <= ii <= jj < ns1.len() implies #[trigger] dep(ns1, ii)
                                <= #[trigger] dep(ns1, jj) by {
                                if jj == n0 {
                                    if ii < n0 {
                                        assert(dep(ns0, ii) <= dep(ns0, cur as int) + 1);
                                    }
                                } else {
                                    assert(dep(ns0, ii) <= dep(ns0, jj));
                                }
                            }
                            assert forall|ii: int, jj: int|
                                0 <= ii < jj < ns1.len() implies #[trigger] st_of(ns1, ii)
                                != #[trigger] st_of(ns1, jj) by {
                                if jj == n0 {
                                    assert(st_of(ns1, jj) == stepped);
                                    assert(st_of(ns0, ii) != stepped);
                                } else {
                                    assert(st_of(ns0, ii) != st_of(ns0, jj));
                                }
                            }
                            assert(nodes_ok(ns1, start));
                            assert forall|ii: int| 0 <= ii < ns1.len() implies !is_goal(
                                #[trigger] st_of(ns1, ii),
                                tset,
                            ) by {
                                if ii < n0 {
                                    assert(!is_goal(st_of(ns0, ii), tset));
                                }
                            }
                            assert forall|ii: int, dd: Direction|
                                0 <= ii < cur as int && #[trigger] can_step(
                                    st_of(ns1, ii),
                                    dd,
                                ) implies !is_goal(step(st_of(ns1, ii), dd), tset) && has_state(
                                ns1,
                                step(st_of(ns1, ii), dd),
                                dep(ns1, ii) + 1,
                            ) by {
                                assert(st_of(ns1, ii) == st_of(ns0, ii));
                                assert(can_step(st_of(ns0, ii), dd));
                                assert(has_state(ns0, step(st_of(ns0, ii), dd), dep(ns0, ii) + 1));
                                let j2 = choose|j2: int|
                                    0 <= j2 < ns0.len() && #[trigger] st_of(ns0, j2) == step(
                                        st_of(ns0, ii),
                                        dd,
                                    ) && dep(ns0, j2) <= dep(ns0, ii) + 1;
                                assert(st_of(ns1, j2) == step(st_of(ns1, ii), dd));
                            }
                            assert forall|jj: int| 0 <= jj < ns1.len() implies #[trigger] dep(
                                ns1,
                                jj,
                            ) <= dep(ns1, cur as int) + 1 by {
                                if jj < n0 {
                                    assert(dep(ns0, jj) <= dep(ns0, cur as int) + 1);
                                }
                            }
                            assert(st_of(ns1, n0) == stepped && dep(ns1, n0) <= dep(
                                ns0,
                                cur as int,
                            ) + 1);
                            assert(has_state(ns1, stepped, dep(ns0, cur as int) + 1));
                        }
                        None
                    },
                }
            }
        },
    }
}

/// Runs a breadth-first search from the given board for a shortest move
/// sequence that pushes every block onto a cell of the target list `s`.
/// Directions are tried in the fixed order down, right, up, left. Returns
/// the move count with the move sequence, or `None` when no sequence of
/// moves solves the puzzle. The count equals the sequence's length, the
/// sequence replays legally from the board to a goal state, and no shorter
/// sequence solves the puzzle.
pub fn solve(b: &Board, s: Vec<Pos>) -> (r: Option<(usize, Vec<Direction>)>)
    requires
        b.wf(),
    ensures
        (r matches Some(sol) ==> {
            &&& sol.0 == sol.1@.len()
            &&& solves(b@, pos_set(s@), sol.1@)
            &&& forall|ms: Seq<Direction>| solves(b@, pos_set(s@), ms) ==> sol.1@.len() <= ms.len()
        }),
        r is None ==> forall|ms: Seq<Direction>| !solves(b@, pos_set(s@), ms),
{
    let ghost start = b@;
    let ghost tset = pos_set(s@);
    proof {
        lemma_pos_set_finite(b.blocks@);
    }
    if same_board(&b.blocks, &s) {
        let mv: Vec<Direction> = Vec::new();
        proof {
            assert(play(start, mv@) == start);
            assert(valid_play(start, mv@));
            assert(is_goal(play(start, mv@), tset));
        }
        return Some((0, mv));
    }
    let mut nodes: Vec<Node> = Vec::new();
    let root = Node {
        board: crate::board::copy_board(b),
        depth: 0,
        last_move: Direction::Down,
        parent: 0,
        path: Ghost(Seq::empty()),
    };
    nodes.push(root);
    proof {
        assert(nodes@.len() == 1);
        assert(st_of(nodes@, 0) == start);
        assert(state_ok(start, start));
        assert(parent_ok(nodes@, 0));
        assert(node_ok(nodes@, start, 0));
        assert(nodes_ok(nodes@, start));
        lemma_nodes_len_bounded(nodes@, start);
    }
    let mut head: usize = 0;
    while head < nodes.len()
        invariant
            start == b@,
            tset == pos_set(s@),
            start.blocks.finite(),
            head <= nodes@.len(),
            nodes@.len() <= u_states(start).len(),
            nodes_ok(nodes@, start),
            expanded(nodes@, tset, head as int),
            no_goal_nodes(nodes@, tset),
            head < nodes@.len() ==> depth_cap(nodes@, head as int),
        decreases u_states(start).len() - nodes@.len(), nodes@.len() - head,
    {
        let cur = head;
        let ghost ns_a = nodes@;
        let r1 = expand(&mut nodes, cur, Direction::Down, &s, Ghost(start), Ghost(tset));
        if let Some(mv) = r1 {
            let n = mv.len();
            return Some((n, mv));
        }
        let ghost ns_b = nodes@;
        let r2 = expand(&mut nodes, cur, Direction::Right, &s, Ghost(start), Ghost(tset));
        if let Some(mv) = r2 {
            let n = mv.len();
            return Some((n, mv));
        }
        let ghost ns_c = nodes@;
        let r3 = expand(&mut nodes, cur, Direction::Up, &s, Ghost(start), Ghost(tset));
        if let Some(mv) = r3 {
            let n = mv.len();
            return Some((n, mv));
        }
        let ghost ns_d = nodes@;
        let r4 = expand(&mut nodes, cur, Direction::Left, &s, Ghost(start), Ghost(tset));
        if let Some(mv) = r4 {
            let n = mv.len();
            return Some((n, mv));
        }
        proof {
            let ns_e = nodes@;
            let ci = cur as int;
            assert(st_of(ns_e, ci) == st_of(ns_a, ci));
            assert(dep(ns_e, ci) == dep(ns_a, ci));
            assert forall|i: int, dd: Direction|
                0 <= i < ci + 1 && #[trigger] can_step(st_of(ns_e, i), dd) implies !is_goal(
                step(st_of(ns_e, i), dd),
                tset,
            ) && has_state(ns_e, step(st_of(ns_e, i), dd), dep(ns_e, i) + 1) by {
                if i < ci {
                    assert(can_step(st_of(ns_e, i), dd));
                } else {
                    assert(i == ci);
                    match dd {
                        Direction::Down => {
                            assert(st_of(ns_a, ci) == st_of(ns_e, ci));
                            assert(has_state(ns_b, step(st_of(ns_a, ci), dd), dep(ns_a, ci) + 1));
                            let j = choose|j: int|
                                0 <= j < ns_b.len() && #[trigger] st_of(ns_b, j) == step(
                                    st_of(ns_a, ci),
                                    dd,
                                ) && dep(ns_b, j) <= dep(ns_a, ci) + 1;
                            assert(st_of(ns_e, j) == st_of(ns_b, j) && dep(ns_e, j) == dep(
                                ns_b,
                                j,
                            ));
                            assert(has_state(ns_e, step(st_of(ns_e, ci), dd), dep(ns_e, ci) + 1));
                        },
                        Direction::Right => {
                            assert(st_of(ns_b, ci) == st_of(ns_e, ci));
                            assert(has_state(ns_c, step(st_of(ns_b, ci), dd), dep(ns_b, ci) + 1));
                            let j = choose|j: int|
                                0 <= j < ns_c.len() && #[trigger] st_of(ns_c, j) == step(
                                    st_of(ns_b, ci),
                                    dd,
                                ) && dep(ns_c, j) <= dep(ns_b, ci) + 1;
                            assert(st_of(ns_e, j) == st_of(ns_c, j) && dep(ns_e, j) == dep(
                                ns_c,
                                j,
                            ));
                            assert(has_state(ns_e, step(st_of(ns_e, ci), dd), dep(ns_e, ci) + 1));
                        },
                        Direction::Up => {
                            assert(st_of(ns_c, ci) == st_of(ns_e, ci));
                            assert(has_state(ns_d, step(st_of(ns_c, ci), dd), dep(ns_c, ci) + 1));
                            let j = choose|j: int|
                                0 <= j < ns_d.len() && #[trigger] st_of(ns_d, j) == step(
                                    st_of(ns_c, ci),
                                    dd,
                                ) && dep(ns_d, j) <= dep(ns_c, ci) + 1;
                            assert(st_of(ns_e, j) == st_of(ns_d, j) && dep(ns_e, j) == dep(
                                ns_d,
                                j,
                            ));
                            assert(has_state(ns_e, step(st_of(ns_e, ci), dd), dep(ns_e, ci) + 1));
                        },
                        Direction::Left => {
                            assert(st_of(ns_d, ci) == st_of(ns_e, ci));
                            assert(has_state(ns_e, step(st_of(ns_d, ci), dd), dep(ns_d, ci) + 1));
                        },
                    }
                }
            }
            assert(expanded(nodes@, tset, ci + 1));
            lemma_nodes_len_bounded(nodes@, start);
            if ci + 1 < nodes@.len() {
                assert forall|jj: int| 0 <= jj < nodes@.len() implies #[trigger] dep(nodes@, jj)
                    <= dep(nodes@, ci + 1) + 1 by {
                    assert(dep(nodes@, jj) <= dep(nodes@, ci) + 1);
                    assert(dep(nodes@, ci) <= dep(nodes@, ci + 1));
                }
            }
        }
        head = cur + 1;
    }
    proof {
        lemma_no_solution(nodes@, start, tset);
    }
    None
}

} // verus!
