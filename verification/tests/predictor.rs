use boardgame_ai::ai::predict;
use boardgame_ai::othello::{Board, Piece, Point};

#[test]
fn prediction() {
    let board = "
            bbbb
            wwww
            ww.b
            ....
        ";
    let board = Board::decode(board, 4).unwrap();
    let next_play = predict(&board, Piece::Black, 0, 10).unwrap();
    assert_eq!(next_play, Point::new(0, 3));
}

#[test]
fn when_ai_cannot_place() {
    let board = "
            ww.b
            bwbw
            w..b
            bwbw
        ";
    let board = Board::decode(board, 4).unwrap();
    let next_play = predict(&board, Piece::Black, 0, 10);
    assert_eq!(next_play, None);
}

#[test]
fn recursion_should_terminate() {
    let board = "
            ............
            ............
            wbwwbbwb....
            ....wbwwbbwb
            ............
            ......bbbww.
            ............
            wbwwbbwb....
            ...w.wbb....
            ..wbbbw.....
            .bbb........
            ..bb........
        ";
    let board = Board::decode(board, 12).unwrap();
    let next_play = predict(&board, Piece::Black, 5, 3);
    let next_board = board.place(next_play.unwrap(), Piece::Black).unwrap();
    drop(next_board);
}

#[test]
fn prediction_with_lookahead() {
    let board = "
            ....
            ._wb
            .wwb
            .bbb
        ";
    let board = Board::decode(board, 4).unwrap();
    let next_play = predict(&board, Piece::Black, 1, 10).unwrap();
    assert_eq!(next_play, Point::new(1, 1));
}

#[test]
fn predicted_move_is_always_legal() {
    let board = "
            ..b.bb
            ..bbbw
            b.wwb.
            wwbbb.
            ww.bbw
            ww.bbw
        ";
    let board = Board::decode(board, 6).unwrap();
    for piece in [Piece::Black, Piece::White] {
        if let Some(play) = predict(&board, piece, 2, 4) {
            assert!(board.count_flips(play, piece) > 0);
        }
    }
}

#[test]
fn narrowest_width_still_predicts() {
    let board = Board::new(4);
    assert!(predict(&board, Piece::Black, 0, 1).is_some());
}
