use sokoban::board::{build_board, boards_equal, same_board, Board};
use sokoban::engine::add_move;
use sokoban::geom::{Direction, Pos};
use sokoban::search::solve;

fn lines(rows: &[&str]) -> Vec<String> {
    rows.iter().map(|r| r.to_string()).collect()
}

#[test]
fn parse_count_mismatch_fails() {
    // one block, no target
    let r = build_board(&lines(&["@$ "]));
    assert!(r.is_err());
}

#[test]
fn parse_ragged_rows_fail() {
    let r = build_board(&lines(&["@$.", "##"]));
    assert!(r.is_err());
}

#[test]
fn parse_counts_equal_on_success() {
    let r = build_board(&lines(&["*@.", "$ #"]));
    let (b, s) = r.unwrap();
    assert_eq!(b.blocks.len(), b.targets.len());
    assert_eq!(b.blocks.len(), 2);
    assert_eq!(s, b.targets);
    assert_eq!(b.size, Pos { x: 3, y: 2 });
    assert_eq!(b.player, Pos { x: 1, y: 0 });
    assert_eq!(b.walls, vec![Pos { x: 2, y: 1 }]);
}

#[test]
fn parse_player_on_target() {
    let (b, s) = build_board(&lines(&["+$", " *"])).unwrap();
    assert_eq!(b.player, Pos { x: 0, y: 0 });
    assert_eq!(s.len(), 2);
    assert!(s.contains(&Pos { x: 0, y: 0 }));
    assert!(s.contains(&Pos { x: 1, y: 1 }));
}

#[test]
fn apply_does_not_mutate_input() {
    let (b, _s) = build_board(&lines(&["@$."])).unwrap();
    let before = b.clone();
    let pushed = add_move(&b, Direction::Right);
    assert!(pushed.is_some());
    assert_eq!(b, before);
    let rejected = add_move(&b, Direction::Up);
    assert!(rejected.is_none());
    assert_eq!(b, before);
}

#[test]
fn board_equality_ignores_block_order() {
    let a = Board {
        size: Pos { x: 3, y: 2 },
        blocks: vec![Pos { x: 1, y: 0 }, Pos { x: 2, y: 1 }],
        targets: vec![Pos { x: 0, y: 0 }, Pos { x: 2, y: 0 }],
        walls: vec![],
        player: Pos { x: 0, y: 1 },
    };
    let b = Board {
        size: Pos { x: 3, y: 2 },
        blocks: vec![Pos { x: 2, y: 1 }, Pos { x: 1, y: 0 }],
        targets: vec![Pos { x: 2, y: 0 }, Pos { x: 0, y: 0 }],
        walls: vec![],
        player: Pos { x: 0, y: 1 },
    };
    assert!(boards_equal(&a, &b));
    let c = Board { player: Pos { x: 1, y: 1 }, ..b.clone() };
    assert!(!boards_equal(&a, &c));
    let d = Board { blocks: vec![Pos { x: 2, y: 1 }, Pos { x: 2, y: 0 }], ..b.clone() };
    assert!(!boards_equal(&a, &d));
}

#[test]
fn same_board_is_set_equality() {
    let v0 = vec![Pos { x: 1, y: 2 }, Pos { x: 3, y: 4 }];
    let v1 = vec![Pos { x: 3, y: 4 }, Pos { x: 1, y: 2 }];
    let v2 = vec![Pos { x: 1, y: 2 }];
    assert!(same_board(&v0, &v1));
    assert!(!same_board(&v0, &v2));
    assert!(!same_board(&v2, &v0));
}

#[test]
fn trivial_board_solves_in_one_push() {
    let (b, s) = build_board(&lines(&["@$."])).unwrap();
    let r = solve(&b, s);
    assert_eq!(r, Some((1, vec![Direction::Right])));
}

#[test]
fn blocked_push_is_rejected() {
    // the block sits between the player and a wall: pushing right is illegal
    let (b, s) = build_board(&lines(&[".@$#"])).unwrap();
    assert!(add_move(&b, Direction::Right).is_none());
    // and the block can never reach the target at all
    let r = solve(&b, s);
    assert!(r.is_none());
}

#[test]
fn walled_in_target_is_unsolvable() {
    let (b, s) = build_board(&lines(&["####", "#@$#", "#.##", "####"])).unwrap();
    let r = solve(&b, s);
    assert!(r.is_none());
}

#[test]
fn two_blocks_need_ordered_pushes() {
    let (b, s) = build_board(&lines(&["@$.", " $ ", " . "])).unwrap();
    let r = solve(&b, s);
    assert_eq!(r, Some((2, vec![Direction::Right, Direction::Down])));
}

#[test]
fn solution_replays_to_goal() {
    let (b, s) = build_board(&lines(&["@$.", " $ ", " . "])).unwrap();
    let (n, moves) = solve(&b, s.clone()).unwrap();
    assert_eq!(n, moves.len());
    let mut cur = b;
    for d in moves {
        cur = add_move(&cur, d).expect("a reported move must be legal");
    }
    assert!(same_board(&cur.blocks, &s));
}

#[test]
fn already_solved_board_needs_no_moves() {
    let (b, s) = build_board(&lines(&["*@"])).unwrap();
    let r = solve(&b, s);
    assert_eq!(r, Some((0, vec![])));
}

#[test]
fn longer_corridor_counts_moves() {
    // the player must walk before the single push: @  $. takes 3 moves
    let (b, s) = build_board(&lines(&["@  $."])).unwrap();
    let r = solve(&b, s);
    assert_eq!(r, Some((3, vec![Direction::Right, Direction::Right, Direction::Right])));
}

#[test]
fn coordinate_addition_is_componentwise() {
    let a = Pos { x: 3, y: -2 };
    let b = Pos { x: -1, y: 5 };
    assert_eq!(a.add(b), Pos { x: 2, y: 3 });
}
