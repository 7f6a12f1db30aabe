//! The move rule engine: legality of one player move and the board it
//! produces.

use vstd::prelude::*;
use crate::geom::{Pos, Direction, delta, move_of, in_bounds, dir_delta};
use crate::board::{Board, BoardState, pos_set, contains_pos, find_pos, copy_positions};

verus! {

/// Whether the player of state `s` may move in direction `d`: the stepped-to
/// cell is in bounds and not a wall, and if a block stands there, the cell
/// behind it is in bounds, not a wall, and not another block.
pub open spec fn can_step(s: BoardState, d: Direction) -> bool {
    let np = move_of(s.player, d);
    let nb = move_of(np, d);
    &&& in_bounds(np, s.size)
    &&& !s.walls.contains(np)
    &&& (s.blocks.contains(np) ==> {
        &&& in_bounds(nb, s.size)
        &&& !s.walls.contains(nb)
        &&& !s.blocks.contains(nb)
    })
}

/// The state after a legal move of direction `d`: the player advances one
/// cell, and a block standing there is pushed one further cell.
pub open spec fn step(s: BoardState, d: Direction) -> BoardState {
    let np = move_of(s.player, d);
    let nb = move_of(np, d);
    BoardState {
        player: np,
        blocks: if s.blocks.contains(np) {
            s.blocks.remove(np).insert(nb)
        } else {
            s.blocks
        },
        ..s
    }
}

/// Applies one candidate direction to a board. Returns the resulting board
/// when the move is legal and `None` when it is rejected; the input board is
/// borrowed immutably and never changed. The result keeps the size, walls
/// and targets of the input, moves the player one cell, and pushes at most
/// one block.
pub fn add_move(board: &Board, d: Direction) -> (r: Option<Board>)
    requires
        board.wf(),
    ensures
        r is Some <==> can_step(board@, d),
        (r matches Some(nb) ==> {
            &&& nb@ == step(board@, d)
            &&& nb.wf()
            &&& nb.size == board.size
            &&& nb.walls@ == board.walls@
            &&& nb.targets@ == board.targets@
            &&& nb.blocks@.len() == board.blocks@.len()
        }),
{
    let dp = dir_delta(d);
    proof {
        assert(-1 <= dp.x <= 1 && -1 <= dp.y <= 1);
    }
    let np = board.player.add(dp);
    assert(np@ == move_of(board@.player, d));
    if np.x < 0 || np.x > board.size.x || np.y < 0 || np.y > board.size.y {
        assert(!in_bounds(move_of(board@.player, d), board@.size));
        return None;
    }
    if contains_pos(&board.walls, np) {
        return None;
    }
    match find_pos(&board.blocks, np) {
        Some(i) => {
            // the player pushes the block at `np` to the cell behind it
            let nb = np.add(dp);
            assert(nb@ == move_of(np@, d));
            if nb.x < 0 || nb.x > board.size.x || nb.y < 0 || nb.y > board.size.y {
                return None;
            }
            if contains_pos(&board.walls, nb) {
                return None;
            }
            if contains_pos(&board.blocks, nb) {
                return None;
            }
            assert(can_step(board@, d));
            let mut new_blocks = copy_positions(&board.blocks);
            new_blocks[i] = nb;
            assert(new_blocks@ == board.blocks@.update(i as int, nb));
            let result = Board {
                size: board.size,
                blocks: new_blocks,
                targets: copy_positions(&board.targets),
                walls: copy_positions(&board.walls),
                player: np,
            };
            proof {
                lemma_update_block(board.blocks@, i as int, np, nb);
                assert(result@ =~= step(board@, d));
                // distinctness of the new block list
                assert forall|k1: int, k2: int|
                    0 <= k1 < k2 < result.blocks@.len() implies result.blocks@[k1]
                    != result.blocks@[k2] by {
                    if k1 == i {
                        assert(board.blocks@[k2]@ != nb@);
                    } else if k2 == i {
                        assert(board.blocks@[k1]@ != nb@);
                    }
                }
                assert(result.wf());
            }
            Some(result)
        },
        None => {
            assert(!board@.blocks.contains(move_of(board@.player, d)));
            assert(can_step(board@, d));
            let result = Board {
                size: board.size,
                blocks: copy_positions(&board.blocks),
                targets: copy_positions(&board.targets),
                walls: copy_positions(&board.walls),
                player: np,
            };
            proof {
                assert(result@ =~= step(board@, d));
            }
            Some(result)
        },
    }
}

/// Replacing the one occurrence of `np` in a duplicate-free block list by a
/// coordinate `nb` that is not in the list removes `np` from, and adds `nb`
/// to, the list's coordinate set.
proof fn lemma_update_block(blocks: Seq<Pos>, i: int, np: Pos, nb: Pos)
    requires
        0 <= i < blocks.len(),
        blocks[i] == np,
        forall|k1: int, k2: int| 0 <= k1 < k2 < blocks.len() ==> blocks[k1] != blocks[k2],
        !pos_set(blocks).contains(nb@),
    ensures
        pos_set(blocks.update(i, nb)) == pos_set(blocks).remove(np@).insert(nb@),
{
    let upd = blocks.update(i, nb);
    assert(pos_set(upd) =~= pos_set(blocks).remove(np@).insert(nb@)) by {
        assert forall|q: (int, int)| pos_set(upd).contains(q) implies pos_set(blocks).remove(
            np@,
        ).insert(nb@).contains(q) by {
            let k = choose|k: int| 0 <= k < upd.len() && (#[trigger] upd[k])@ == q;
            if k == i {
                assert(q == nb@);
            } else {
                assert(blocks[k]@ == q);
                assert(pos_set(blocks).contains(q));
                // distinctness: blocks[k] != blocks[i] == np, and the view is
                // injective, so q != np@
                assert(blocks[k] != np);
                assert(q != np@);
            }
        };
        assert forall|q: (int, int)| pos_set(blocks).remove(np@).insert(nb@).contains(
            q,
        ) implies pos_set(upd).contains(q) by {
            if q == nb@ {
                assert((#[trigger] upd[i])@ == q);
            } else {
                let k = choose|k: int| 0 <= k < blocks.len() && (#[trigger] blocks[k])@ == q;
                assert(blocks[k] != np);
                assert(k != i);
                assert((#[trigger] upd[k])@ == q);
            }
        };
    };
}

} // verus!
