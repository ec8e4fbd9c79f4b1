use boardgame_ai::othello::{Board, Cell, Direction, Piece, PlaceErrorKind, Point};

#[test]
fn oob_should_not_panic() {
    let dir = Direction { x: -1, y: -1 };
    let pt = Point { x: 0, y: 0 };
    pt.move_for(dir).ok();
}

#[test]
fn othello_oob_should_not_panic() {
    let dir = Direction { x: -1, y: -1 };
    let pt = Point { x: 0, y: 0 };
    pt.move_for(dir).ok();
}

#[test]
fn move_for_steps_and_rejects_underflow() {
    let pt = Point::new(5, 7);
    let moved = pt.move_for(Direction { x: 1, y: -1 }).unwrap();
    assert_eq!(moved, Point::new(6, 6));
    assert!(Point::new(0, 3).move_for(Direction { x: -1, y: 0 }).is_err());
}

#[test]
fn times_scales_a_direction() {
    let dir = Direction { x: 1, y: -1 };
    let scaled = dir.times(3);
    assert_eq!(scaled, Direction { x: 3, y: -3 });
}

#[test]
fn piece_and_cell_conversions() {
    assert_eq!(Piece::Black.flip(), Piece::White);
    assert_eq!(Piece::White.flip(), Piece::Black);
    assert_eq!(Piece::Black.cell(), Cell::Black);
    assert_eq!(Piece::White.cell(), Cell::White);
    assert_eq!(Cell::Empty.flip(), Cell::Empty);
    assert_eq!(Cell::Black.flip(), Cell::White);
    assert_eq!(Cell::Empty.piece(), None);
    assert_eq!(Cell::White.piece(), Some(Piece::White));
}

#[test]
fn new_board_has_the_standard_opening() {
    let board = Board::new(4);
    assert_eq!(board.get(Point::new(1, 1)).unwrap(), Cell::Black);
    assert_eq!(board.get(Point::new(1, 2)).unwrap(), Cell::White);
    assert_eq!(board.get(Point::new(2, 1)).unwrap(), Cell::White);
    assert_eq!(board.get(Point::new(2, 2)).unwrap(), Cell::Black);
    assert_eq!(board.get(Point::new(0, 0)).unwrap(), Cell::Empty);
    assert_eq!(board.score(Piece::Black), 2);
    assert_eq!(board.score(Piece::White), 2);
    assert!(board.get(Point::new(4, 0)).is_err());
}

#[test]
fn place_complex() {
    let input = "
            bbw.bb
            .wwbww
            bw.wb.
            wwbwb.
            ww.bww
            ww.bbb
        ";
    let expected = "
            bbw.bb
            .bwbww
            bbbbb.
            wwbbb.
            ww.bbw
            ww.bbb
        ";
    let board = Board::decode(input, 6).unwrap();
    let expected = Board::decode(expected, 6).unwrap();

    let (board, flipped) = board.place(Point::new(2, 2), Piece::Black).unwrap();

    assert_eq!(board, expected);
    assert_eq!(flipped, 5);
}

#[test]
fn place() {
    let input = "
            bbw.bb
            .wwbww
            bw.wb.
            wwbwb.
            ww.bww
            ww.bbb
        ";
    let expected = "
            bbw.bb
            .bwbww
            bbbbb.
            wwbbb.
            ww.bbw
            ww.bbb
        ";
    let board = Board::decode(input, 6).unwrap();
    let expected = Board::decode(expected, 6).unwrap();
    let (output, _) = board.place(Point::new(2, 2), Piece::Black).unwrap();
    assert_eq!(output, expected);
}

#[test]
fn place_should_not_overwrite_past_stop() {
    let input = "
            .wwwb.
            .wwwbw
            .wwwbb
            .wwwwb
            ......
            ......
        ";
    let expected = "
            bbbbb.
            bbbbbw
            bbbbbb
            bbbbbb
            ......
            ......
        ";
    let board = Board::decode(input, 6).unwrap();
    let expected = Board::decode(expected, 6).unwrap();

    let mut flipped_total = 0;
    let (board, flipped) = board.place(Point::new(0, 0), Piece::Black).unwrap();
    flipped_total += flipped;
    let (board, flipped) = board.place(Point::new(0, 1), Piece::Black).unwrap();
    flipped_total += flipped;
    let (board, flipped) = board.place(Point::new(0, 2), Piece::Black).unwrap();
    flipped_total += flipped;
    let (board, flipped) = board.place(Point::new(0, 3), Piece::Black).unwrap();
    flipped_total += flipped;

    assert_eq!(board, expected);
    assert_eq!(flipped_total, 13);
}

#[test]
fn place_eight_directions() {
    let input = "
            b.b.b.
            .www..
            bw.wwb
            .www..
            b.w.w.
            ..b..b
        ";
    let expected = "
            b.b.b.
            .bbb..
            bbbbbb
            .bbb..
            b.b.b.
            ..b..b
        ";
    let board = Board::decode(input, 6).unwrap();
    let expected = Board::decode(expected, 6).unwrap();

    let (board, flipped) = board.place(Point::new(2, 2), Piece::Black).unwrap();

    assert_eq!(board, expected);
    assert_eq!(flipped, 11);
}

#[test]
fn count_flip() {
    let table = "
            .bw.bb
            b.bbbw
            b.wwbw
            wbbbb.
            ww.bbw
            ww.bbw
        ";
    let table = Board::decode(table, 6).unwrap();
    assert_eq!(table.count_flips(Point::new(0, 0), Piece::White), 3);
    assert_eq!(table.count_flips(Point::new(1, 1), Piece::White), 3);
    assert_eq!(table.count_flips(Point::new(5, 3), Piece::White), 6);
    assert_eq!(table.count_flips(Point::new(5, 3), Piece::Black), 2);
    assert_eq!(table.count_flips(Point::new(3, 0), Piece::White), 2);
    assert_eq!(table.count_flips(Point::new(2, 4), Piece::White), 5);
    // should not overwrite existing pieces
    assert_eq!(table.count_flips(Point::new(3, 3), Piece::White), 0);
    assert_eq!(table.count_flips(Point::new(2, 1), Piece::White), 0);
}

#[test]
fn count_flips_is_zero_out_of_bounds() {
    let board = Board::new(6);
    assert_eq!(board.count_flips(Point::new(6, 0), Piece::Black), 0);
    assert_eq!(board.count_flips(Point::new(0, 100), Piece::White), 0);
}

#[test]
fn count_flips_is_zero_on_occupied_cells() {
    let board = Board::new(6);
    assert_eq!(board.count_flips(Point::new(2, 2), Piece::Black), 0);
    assert_eq!(board.count_flips(Point::new(2, 3), Piece::White), 0);
}

#[test]
fn place_out_of_bounds_is_rejected() {
    let board = Board::new(4);
    let err = board.place(Point::new(7, 1), Piece::Black).unwrap_err();
    assert_eq!(err.kind, PlaceErrorKind::OutOfBoundary);
    assert_eq!(err.at, Point::new(7, 1));
    assert_eq!(err.player, Piece::Black);
}

#[test]
fn place_on_occupied_cell_is_rejected() {
    let board = Board::new(4);
    let err = board.place(Point::new(1, 1), Piece::White).unwrap_err();
    assert_eq!(err.kind, PlaceErrorKind::AlreadyOccupied);
}

#[test]
fn place_without_flips_is_rejected() {
    let board = Board::new(4);
    let err = board.clone().place(Point::new(0, 0), Piece::Black).unwrap_err();
    assert_eq!(err.kind, PlaceErrorKind::NoPiecesChanged);
    // the rejected board comes back unchanged
    assert_eq!(err.board, board);
}

#[test]
fn place_flips_an_enclosed_run() {
    let input = "
            .wwb
            ....
            ....
            ....
        ";
    let expected = "
            bbbb
            ....
            ....
            ....
        ";
    let board = Board::decode(input, 4).unwrap();
    let expected = Board::decode(expected, 4).unwrap();

    let (next_board, flip_count) = board.place(Point::new(0, 0), Piece::Black).unwrap();
    assert_eq!(next_board, expected);
    assert_eq!(flip_count, 2);
}

#[test]
fn place_grows_the_piece_count_by_one() {
    let input = "
            .wwb
            ....
            ....
            ....
        ";
    let board = Board::decode(input, 4).unwrap();
    let before = board.score(Piece::Black) + board.score(Piece::White);
    let (after, flipped) = board.place(Point::new(0, 0), Piece::Black).unwrap();
    let after_total = after.score(Piece::Black) + after.score(Piece::White);
    assert_eq!(after_total, before + 1);
    assert_eq!(flipped, 2);
}

#[test]
fn flip_count_matches_cells_that_changed() {
    let input = "
            b.b.b.
            .www..
            bw.wwb
            .www..
            b.w.w.
            ..b..b
        ";
    let before = Board::decode(input, 6).unwrap();
    let at = Point::new(2, 2);
    let (after, flipped) = before.clone().place(at, Piece::Black).unwrap();
    let mut changed = 0;
    for y in 0..6 {
        for x in 0..6 {
            let p = Point::new(x, y);
            if p != at && before.get(p).unwrap() != after.get(p).unwrap() {
                changed += 1;
            }
        }
    }
    assert_eq!(flipped, changed);
}

#[test]
fn score_counts_each_colour() {
    let table = "
            .bw.bb
            b.bbbw
            b.wwbw
            wbbbb.
            ww.bbw
            ww.bbw
        ";
    let table = Board::decode(table, 6).unwrap();
    assert_eq!(table.score(Piece::Black), 17);
    assert_eq!(table.score(Piece::White), 12);
}

#[test]
fn placeable_lists_points_in_scan_order() {
    let serialized = "
            ......
            .bbb..
            ._w_..
            .bwb..
            .b_b..
            ......
        ";
    let board = Board::decode(serialized, 6).unwrap();
    let expected = vec![Point::new(1, 2), Point::new(2, 4), Point::new(3, 2)];
    assert_eq!(board.placeable(Piece::Black), expected);
}

#[test]
fn placeable_is_exactly_the_points_with_flips() {
    let table = "
            .bw.bb
            b.bbbw
            b.wwbw
            wbbbb.
            ww.bbw
            ww.bbw
        ";
    let board = Board::decode(table, 6).unwrap();
    for piece in [Piece::Black, Piece::White] {
        let listed = board.placeable(piece);
        let mut expected = Vec::new();
        for x in 0..6 {
            for y in 0..6 {
                let p = Point::new(x, y);
                if board.count_flips(p, piece) > 0 {
                    expected.push(p);
                }
            }
        }
        assert_eq!(listed, expected);
        assert_eq!(listed.is_empty(), expected.is_empty());
    }
}

#[test]
fn set_and_get_are_primitive_accessors() {
    let mut board = Board::new(4);
    assert!(board.set(Point::new(0, 3), Cell::White).is_ok());
    assert_eq!(board.get(Point::new(0, 3)).unwrap(), Cell::White);
    assert!(board.set(Point::new(9, 0), Cell::Black).is_err());
}
