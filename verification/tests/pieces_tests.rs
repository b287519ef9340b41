use polypack::pieces::{compute_pieces, Piece};

#[test]
fn test_pieces() {
    assert_eq!(compute_pieces(3), vec![
        Piece { points: vec![(0, 0)] },
        Piece { points: vec![(0, 0), (0, 1)] },
        Piece { points: vec![(0, 0), (0, 1), (0, 2)] },
        Piece { points: vec![(0, 0), (0, 1), (1, 0)] },
    ]);
}

#[test]
fn test_min_corner() {
    assert_eq!(Piece { points: vec![(1, 2), (2, 1)] }.min_corner(), (1, 1));
}

#[test]
fn test_translate() {
    let p = Piece { points: vec![(1, 2), (2, 1)] };
    assert_eq!(p.translate_origin().min_corner(), (0, 0));
}

#[test]
fn test_mirror_x() {
    let p = Piece { points: vec![(1, 2), (2, 1)] };
    assert_eq!(p.mirror_x().min_corner(), (-2, 1));
}

#[test]
fn test_variations_o() {
    let o = Piece { points: vec![(0, 0), (0, 1), (1, 0), (1, 1)] };
    assert_eq!(o.variations().len(), 1);
}

#[test]
fn test_variations_i() {
    let i = Piece { points: vec![(0, 0), (0, 1), (0, 2), (0, 3)] };
    assert_eq!(i.variations().len(), 2);
}

#[test]
fn test_max_corner() {
    assert_eq!(Piece { points: vec![(1, 2), (2, 1)] }.max_corner(), (2, 2));
}

#[test]
fn test_compute_pieces_sizes() {
    let pieces = compute_pieces(4);
    for p in pieces.iter() {
        assert!(1 <= p.points.len() && p.points.len() <= 4);
        for &(x, y) in p.points.iter() {
            assert!(0 <= x && 0 <= y);
        }
    }
    // one monomino, one domino, two trominoes, five tetrominoes
    assert_eq!(pieces.len(), 1 + 1 + 2 + 5);
}
