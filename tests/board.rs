use puzzle512::{Board, Move};

#[test]
fn do_move() {
    let x = Board::create(&[1u8; 9]);
    assert_eq!(
        x.do_move(Move::Up),
        Some(Board::create(&[
            2, 2, 2, //
            1, 1, 1, //
            0, 0, 0, //
        ]))
    );
    assert_eq!(
        x.do_move(Move::Down),
        Some(Board::create(&[
            0, 0, 0, //
            1, 1, 1, //
            2, 2, 2, //
        ]))
    );
    assert_eq!(
        x.do_move(Move::Left),
        Some(Board::create(&[
            2, 1, 0, //
            2, 1, 0, //
            2, 1, 0, //
        ]))
    );
    assert_eq!(
        x.do_move(Move::Right),
        Some(Board::create(&[
            0, 1, 2, //
            0, 1, 2, //
            0, 1, 2, //
        ]))
    );
}

#[test]
fn rotate_clockwise() {
    let x = Board::create(&[
        1, 2, 3, //
        4, 5, 6, //
        7, 8, 9, //
    ]);
    let y = Board::create(&[
        7, 4, 1, //
        8, 5, 2, //
        9, 6, 3, //
    ]);
    assert_eq!(x.rotate_clockwise::<1>(), y);
}

#[test]
fn reflect_horizontal() {
    let x = Board::create(&[
        1, 2, 3, //
        4, 5, 6, //
        7, 8, 9, //
    ]);
    let y = Board::create(&[
        3, 2, 1, //
        6, 5, 4, //
        9, 8, 7, //
    ]);
    assert_eq!(x.reflect_horizontal(), y);
}

#[test]
fn shift_line() {
    assert_eq!(Board::shift_line(&[0, 0, 0]), [0, 0, 0]);
    assert_eq!(Board::shift_line(&[1, 0, 1]), [2, 0, 0]);
    assert_eq!(Board::shift_line(&[0, 1, 1]), [2, 0, 0]);
    assert_eq!(Board::shift_line(&[1, 1, 1]), [2, 1, 0]);
    assert_eq!(Board::shift_line(&[2, 1, 1]), [2, 2, 0]);
}

#[test]
fn shift_line_merges_last_pair_only_when_first_differs() {
    assert_eq!(Board::shift_line(&[3, 2, 2]), [3, 3, 0]);
    assert_eq!(Board::shift_line(&[2, 2, 2]), [3, 2, 0]);
    assert_eq!(Board::shift_line(&[0, 0, 4]), [4, 0, 0]);
    assert_eq!(Board::shift_line(&[1, 2, 3]), [1, 2, 3]);
    assert_eq!(Board::shift_line(&[14, 14, 0]), [15, 0, 0]);
}

#[test]
fn create_packs_row_major() {
    let b = Board::create(&[1, 2, 3, 4, 5, 6, 7, 8, 9]);
    assert_eq!(b.0, 0x9876_54321);
    assert_eq!(Board::empty().0, 0);
}

#[test]
fn rotations_compose() {
    let x = Board::create(&[1, 2, 3, 4, 5, 6, 7, 8, 9]);
    assert_eq!(x.rotate_clockwise::<0>(), x);
    assert_eq!(x.rotate_clockwise::<4>(), x);
    assert_eq!(
        x.rotate_clockwise::<2>(),
        Board::create(&[9, 8, 7, 6, 5, 4, 3, 2, 1])
    );
    assert_eq!(
        x.rotate_clockwise::<3>(),
        Board::create(&[3, 6, 9, 2, 5, 8, 1, 4, 7])
    );
}

#[test]
fn canonical_orientation_is_smallest_image() {
    let x = Board::create(&[1, 2, 3, 4, 5, 6, 7, 8, 9]);
    let c = x.canonical_orientation();
    assert_eq!(c, Board::create(&[9, 8, 7, 6, 5, 4, 3, 2, 1]));
    assert_eq!(c.canonical_orientation(), c);
    let images = [
        x,
        x.rotate_clockwise::<1>(),
        x.rotate_clockwise::<2>(),
        x.rotate_clockwise::<3>(),
        x.reflect_horizontal(),
        x.reflect_horizontal().rotate_clockwise::<1>(),
        x.reflect_horizontal().rotate_clockwise::<2>(),
        x.reflect_horizontal().rotate_clockwise::<3>(),
    ];
    for im in images {
        assert_eq!(im.canonical_orientation(), c);
        assert!(c.0 <= im.0);
    }
}

#[test]
fn canonical_orientation_of_single_tile() {
    let corner = Board::create(&[0, 0, 0, 0, 0, 0, 0, 0, 1]);
    assert_eq!(corner.canonical_orientation(), Board::create(&[1, 0, 0, 0, 0, 0, 0, 0, 0]));
    let edge = Board::create(&[0, 0, 0, 0, 0, 1, 0, 0, 0]);
    assert_eq!(edge.canonical_orientation(), Board::create(&[0, 1, 0, 0, 0, 0, 0, 0, 0]));
}

#[test]
fn do_move_without_effect_is_none() {
    let b = Board::create(&[1, 2, 3, 0, 0, 0, 0, 0, 0]);
    assert_eq!(b.do_move(Move::Up), None);
    assert_eq!(b.do_move(Move::Left), None);
    assert_eq!(b.do_move(Move::Right), None);
    assert_eq!(
        b.do_move(Move::Down),
        Some(Board::create(&[0, 0, 0, 0, 0, 0, 1, 2, 3]))
    );
    assert_eq!(Board::empty().do_move(Move::Down), None);
}

#[test]
fn possible_moves_in_fixed_order() {
    let b = Board::create(&[1, 0, 0, 0, 0, 0, 0, 0, 0]);
    let moves = b.possible_moves();
    assert_eq!(
        moves,
        vec![
            (Board::create(&[0, 0, 0, 0, 0, 0, 1, 0, 0]), Move::Down),
            (Board::create(&[0, 0, 1, 0, 0, 0, 0, 0, 0]), Move::Right),
        ]
    );
    assert!(Board::empty().possible_moves().is_empty());
}

#[test]
fn possible_new_tiles_fill_each_empty_cell() {
    let b = Board::create(&[2, 0, 2, 2, 2, 2, 2, 0, 2]);
    assert_eq!(
        b.possible_new_tiles(),
        vec![
            Board::create(&[2, 1, 2, 2, 2, 2, 2, 0, 2]),
            Board::create(&[2, 0, 2, 2, 2, 2, 2, 1, 2]),
        ]
    );
    assert_eq!(Board::empty().possible_new_tiles().len(), 9);
    assert_eq!(Board::create(&[1; 9]).possible_new_tiles().len(), 0);
}

#[test]
fn win_and_loss() {
    let win = Board::create(&[5; 9]);
    assert!(win.is_win());
    assert!(!win.is_loss());
    let full = Board::create(&[1, 2, 1, 2, 1, 2, 1, 2, 1]);
    assert!(full.possible_moves().is_empty());
    assert!(!full.is_win());
    assert!(full.is_loss());
    let open = Board::create(&[1, 0, 0, 0, 0, 0, 0, 0, 0]);
    assert!(!open.is_win());
    assert!(!open.is_loss());
}

#[test]
fn stuck_winning_board_is_not_a_loss() {
    let b = Board::create(&[6, 4, 6, 4, 6, 4, 6, 4, 5]);
    assert!(b.possible_moves().is_empty());
    assert!(b.is_win());
    assert!(!b.is_loss());
}

#[test]
fn lines_fit_allows_one_fifteen_per_line() {
    assert!(Board::empty().has_lines_fit());
    assert!(Board::create(&[15, 14, 14, 0, 0, 0, 0, 0, 0]).has_lines_fit());
    assert!(Board::create(&[15, 0, 0, 0, 0, 0, 0, 0, 15]).has_lines_fit());
    assert!(!Board::create(&[15, 0, 15, 0, 0, 0, 0, 0, 0]).has_lines_fit());
    assert!(!Board::create(&[0, 0, 0, 0, 15, 0, 0, 15, 0]).has_lines_fit());
    let b = Board::create(&[15, 14, 14, 0, 0, 0, 0, 0, 0]);
    assert_eq!(
        b.do_move(Move::Left),
        Some(Board::create(&[15, 15, 0, 0, 0, 0, 0, 0, 0]))
    );
    let corners = Board::create(&[15, 0, 0, 0, 0, 0, 0, 0, 15]);
    assert_eq!(
        corners.do_move(Move::Up),
        Some(Board::create(&[15, 0, 15, 0, 0, 0, 0, 0, 0]))
    );
}
