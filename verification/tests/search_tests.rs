use polypack::board::Board;
use polypack::game::{BoardStateMut, GameStateMut};
use polypack::pieces::Piece;
use polypack::treesearch::{simulate, TreeSearch};
use rand::SeedableRng;

fn trivial_game() -> BoardStateMut {
    // A 1x1 board with one home cell and only the 1-cell piece.
    let catalog = vec![Piece { points: vec![(0, 0)] }];
    let board = Board::new(catalog, 1, 1, &vec![(0, 0)]);
    BoardStateMut::new(board)
}

#[test]
fn test_trivial_game_terminates() {
    // One legal move, one expansion, then the whole game tree is explored
    // and no unexpanded leaf remains.
    let mut game = trivial_game();
    let mut rng = rand::rngs::StdRng::seed_from_u64(7);
    let mut t = TreeSearch::new();

    assert_eq!(game.move_count(), 1);
    assert_eq!(t.leaves(), vec![0]);

    t.search_step(&mut game, &mut rng, 0).unwrap();
    assert_eq!(t.node_count(), 2);
    assert_eq!(t.leaves(), vec![1]);

    t.search_step(&mut game, &mut rng, 1).unwrap();
    assert_eq!(t.node_count(), 2);
    assert_eq!(t.leaves(), Vec::<usize>::new());
}

#[test]
fn test_visit_counts_monotone() {
    // After n backpropagation events touching a node, its visit count is
    // exactly n, and counts only ever increase.
    let mut game = trivial_game();
    let mut rng = rand::rngs::StdRng::seed_from_u64(1);
    let mut t = TreeSearch::new();
    assert_eq!(t.visit_count(0), 0);

    t.search_step(&mut game, &mut rng, 0).unwrap();
    assert_eq!(t.visit_count(0), 1);
    assert_eq!(t.visit_count(1), 1);

    t.search_step(&mut game, &mut rng, 1).unwrap();
    assert_eq!(t.visit_count(0), 2);
    assert_eq!(t.visit_count(1), 2);
}

#[test]
fn test_backpropagation_exact() {
    let mut t = TreeSearch::new();
    t.backpropagation(0, 5);
    t.backpropagation(0, -2);
    assert_eq!(t.visit_count(0), 2);
    assert_eq!(t.value_sum(0), 3);
}

#[test]
fn test_simulate_restores_depth() {
    // A rollout plays to the terminal position, scores it, and undoes back.
    let mut game = trivial_game();
    let mut rng = rand::rngs::StdRng::seed_from_u64(3);
    let v = simulate(&mut game, &mut rng);
    // The 1x1 board fully covered scores 1 - 0 - 0 = 1.
    assert_eq!(v, 1);
    assert_eq!(game.move_count(), 1);
    assert_eq!(game.count, 0);
}

#[test]
fn test_adapter_value_fixture() {
    // The adapter's value is the heuristic of the current board: an empty
    // 3x3 board scores 0 - 3*1 - 1 = -4.
    let catalog = vec![Piece { points: vec![(0, 0)] }];
    let board = Board::new(catalog, 3, 3, &vec![(0, 0)]);
    let mut game = BoardStateMut::new(board);
    assert_eq!(game.value(), -4);
}

#[test]
fn test_adapter_turn_rotation() {
    // With two players the color rotates each move.
    let catalog = vec![
        Piece { points: vec![(0, 0)] },
    ];
    let board = Board::new(catalog, 2, 2, &vec![(0, 0), (1, 1)]);
    let mut game = BoardStateMut::new(board);
    assert_eq!(game.move_count(), 1);
    assert!(game.select_move(0));
    // now it is color 1's turn; its home is free
    assert_eq!(game.move_count(), 1);
    assert!(game.select_move(0));
    assert_eq!(game.move_count(), 0);
    assert!(game.undo());
    assert!(game.undo());
    assert!(!game.undo());
}
