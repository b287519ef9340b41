use polypack::board::{Board, BoardPieceVariation};
use polypack::pieces::{compute_pieces, Piece};
use polypack::heuristic::board_score;

fn singleton_catalog() -> Vec<Piece> {
    vec![Piece { points: vec![(0, 0)] }]
}

#[test]
fn test_translations() {
    let points = vec![(0, 0), (0, 1), (0, 2), (1, 0)];
    let board_width = 4;
    let board_height = 5;
    let v = BoardPieceVariation::new(&points, board_width);
    assert_eq!(v.width, 2);
    assert_eq!(v.height, 3);
    let translations = v.translations(board_width, board_height);
    assert_eq!(translations, vec![0, 1, 2, 4, 5, 6, 8, 9, 10]);
}

#[test]
fn test_translation_offsets() {
    let points = vec![(0, 0), (1, 0)];
    let v = BoardPieceVariation::new(&points, 4);
    assert_eq!(v.translation(5), vec![5, 6]);
}

#[test]
fn test_color_out_of_bounds() {
    let b = Board::new(singleton_catalog(), 2, 2, &vec![(0, 0)]);
    assert!(b.moves(1).is_err());
}

#[test]
fn test_undo_empty_history() {
    let mut b = Board::new(singleton_catalog(), 2, 2, &vec![(0, 0)]);
    assert!(b.undo().is_err());
}

#[test]
fn test_home_seeding() {
    // With no pieces placed, the 1-cell piece has a legal move on the home
    // cell, and it is the first move in the deterministic order.
    let b = Board::new(singleton_catalog(), 2, 2, &vec![(0, 0)]);
    let m = b.moves(0).unwrap();
    assert!(m.moves.len() >= 1);
    assert_eq!(m.moves[0], (0, 0, 0));
}

#[test]
fn test_round_trip() {
    // Applying legal placements and undoing them restores the board exactly.
    let mut b = Board::new(compute_pieces(2), 4, 4, &vec![(0, 0), (3, 3)]);
    let before: Vec<Option<u8>> = (0..b.size()).map(|i| b.at(i)).collect();
    let moves_before = b.moves(0).unwrap().moves;

    let m0 = b.moves(0).unwrap();
    m0.place(&mut b, 0);
    let m1 = b.moves(1).unwrap();
    m1.place(&mut b, 0);
    b.undo().unwrap();
    b.undo().unwrap();

    let after: Vec<Option<u8>> = (0..b.size()).map(|i| b.at(i)).collect();
    assert_eq!(before, after);
    assert_eq!(moves_before, b.moves(0).unwrap().moves);
}

#[test]
fn test_legality_soundness() {
    // Every returned move covers only empty cells when applied.
    let mut b = Board::new(compute_pieces(2), 3, 3, &vec![(0, 0)]);
    let m = b.moves(0).unwrap();
    let n = m.moves.len();
    assert!(n > 0);
    let occupied_before: Vec<bool> = (0..b.size()).map(|i| b.at(i).is_some()).collect();
    m.place(&mut b, 0);
    for i in 0..b.size() {
        if occupied_before[i] {
            assert!(b.at(i).is_some());
        }
    }
    assert!((0..b.size()).filter(|&i| b.at(i).is_some()).count() >= 1);
}

#[test]
fn test_adjacency_rule() {
    // Two same-color placements never share a cardinal edge.  With a
    // catalog of two 1-cell pieces, every occupied pair of cells comes from
    // different placements.
    let catalog = vec![
        Piece { points: vec![(0, 0)] },
        Piece { points: vec![(0, 0)] },
    ];
    let mut b = Board::new(catalog, 4, 4, &vec![(0, 0)]);
    let m = b.moves(0).unwrap();
    m.place(&mut b, 0);
    let m2 = b.moves(0).unwrap();
    assert!(m2.moves.len() > 0);
    m2.place(&mut b, 0);
    for i in 0..b.size() {
        if b.at(i) == Some(0) {
            let mut it = b.cardinal_neighbors(i);
            while let Some(j) = it.next() {
                assert_ne!(b.at(j), Some(0), "cells {} and {} share an edge", i, j);
            }
        }
    }
    // And the later placement touches the earlier territory at a corner.
    let mut corner_contact = false;
    for i in 0..b.size() {
        if b.at(i) == Some(0) {
            let mut it = b.diagonal_neighbors(i);
            while let Some(j) = it.next() {
                if b.at(j) == Some(0) {
                    corner_contact = true;
                }
            }
        }
    }
    assert!(corner_contact);
}

#[test]
fn test_heuristic_empty_3x3() {
    // A fully empty 3x3 board scores 0 - 3*1 - 1 = -4.
    let b = Board::new(singleton_catalog(), 3, 3, &vec![(0, 0)]);
    let s = board_score(&b);
    assert_eq!(s.occupied, 0);
    assert_eq!(s.eightway, 1);
    assert_eq!(s.cardinal, 1);
    assert_eq!(s.value, -4);
}

#[test]
fn test_heuristic_center_3x3() {
    // Center occupied: the ring of 8 empty cells is one 8-connected
    // component, and since the ring is a 4-connected cycle it is also a
    // single cardinal component: 1 - 3*1 - 1 = -3.
    let mut b = Board::new(singleton_catalog(), 3, 3, &vec![(1, 1)]);
    let m = b.moves(0).unwrap();
    let idx = m.moves.iter().position(|&(_, _, d)| d == 4).unwrap();
    m.place(&mut b, idx);
    assert_eq!(b.at(4), Some(0));
    let s = board_score(&b);
    assert_eq!(s.occupied, 1);
    assert_eq!(s.eightway, 1);
    assert_eq!(s.cardinal, 1);
    assert_eq!(s.value, -3);
}

#[test]
fn test_heuristic_split_components() {
    // A full middle row on 3x3 splits the empty cells into two 8-way
    // components, each a single cardinal component: 3 - 3*2 - 2 = -5.
    let catalog = vec![Piece { points: vec![(0, 0), (1, 0), (2, 0)] }];
    let mut b = Board::new(catalog, 3, 3, &vec![(0, 1)]);
    let m = b.moves(0).unwrap();
    let idx = m.moves.iter().position(|&(_, _, d)| d == 3).unwrap();
    m.place(&mut b, idx);
    let s = board_score(&b);
    assert_eq!(s.occupied, 3);
    assert_eq!(s.eightway, 2);
    assert_eq!(s.cardinal, 2);
    assert_eq!(s.value, -5);
}
