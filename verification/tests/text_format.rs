use boardgame_ai::codec::DecodeError;
use boardgame_ai::othello::{Board, Piece, Point};

#[test]
fn decode() {
    let serialized = "
            ..b.bb
            ..bbbw
            b.wwb.
            wwbbb.
            ww.bbw
            ww.bbw
        ";
    let decoded = Board::decode(serialized, 6);
    assert!(decoded.is_ok(), "{:?}", decoded);
}

#[test]
fn othello_decode() {
    let serialized = "
            ..b.bb
            ..bbbw
            b.wwb.
            wwbbb.
            ww.bbw
            ww.bbw
        ";
    let decoded = Board::decode(serialized, 6);
    assert!(decoded.is_ok(), "{:?}", decoded);
}

#[test]
fn decode_reads_underscore_as_empty() {
    let a = Board::decode("_w\nb_", 2).unwrap();
    let b = Board::decode(".w\nb.", 2).unwrap();
    assert_eq!(a, b);
}

#[test]
fn decode_rejects_an_unknown_character() {
    let err = Board::decode("..q.\n....\n....\n....", 4).unwrap_err();
    assert_eq!(err, DecodeError::UnknownChar('q'));
}

#[test]
fn decode_rejects_a_wrong_line_count() {
    let err = Board::decode("....\n....", 4).unwrap_err();
    assert_eq!(err, DecodeError::UnmatchedOverallLength { expected: 4, got: 2 });
}

#[test]
fn decode_rejects_a_wrong_line_length() {
    let err = Board::decode("....\n...\n....\n....", 4).unwrap_err();
    assert_eq!(err, DecodeError::UnmatchedLocalLength { at: 1, expected: 4, got: 3 });
}

#[test]
fn decode_reports_the_unknown_character_before_the_length() {
    // the bad character sits in an over-long row: the character wins
    let err = Board::decode("....\n..q..\n....\n....", 4).unwrap_err();
    assert_eq!(err, DecodeError::UnknownChar('q'));
}

#[test]
fn encode_writes_one_line_per_row() {
    let board = Board::new(4);
    assert_eq!(board.encode(), "\n....\n.bw.\n.wb.\n....\n");
}

#[test]
fn encode_decode_round_trip() {
    let serialized = "
            ......
            ..w...
            ..wb..
            .wwb..
            ...b..
            ......
        ";
    let board = Board::decode(serialized, 6).unwrap();
    let encoded = board.encode();
    let again = Board::decode(&encoded, 6).unwrap();
    assert_eq!(again, board);
}

#[test]
fn encode_is_a_fixed_point_of_the_round_trip() {
    let serialized = "\n......\n..w...\n..wb..\n.wwb..\n...b..\n......\n";
    let board = Board::decode(serialized, 6).unwrap();
    assert_eq!(board.encode(), serialized);
}

#[test]
fn round_trip_after_a_move() {
    let board = Board::new(6);
    let plays = board.placeable(Piece::Black);
    assert!(!plays.is_empty());
    let (board, _) = board.place(plays[0], Piece::Black).unwrap();
    let again = Board::decode(&board.encode(), 6).unwrap();
    assert_eq!(again, board);
}

#[test]
fn decode_ignores_blank_lines_and_padding() {
    let padded = "\n\n   ..w.  \n .b.. \n\n ww.b \n .... \n\n";
    let plain = "..w.\n.b..\nww.b\n....";
    assert_eq!(Board::decode(padded, 4).unwrap(), Board::decode(plain, 4).unwrap());
}

#[test]
fn decoded_board_exposes_its_cells() {
    let board = Board::decode("b..w\n....\n.bw.\n....", 4).unwrap();
    assert_eq!(board.size, 4);
    assert_eq!(board.get(Point::new(0, 0)).unwrap(), boardgame_ai::othello::Cell::Black);
    assert_eq!(board.get(Point::new(3, 0)).unwrap(), boardgame_ai::othello::Cell::White);
    assert_eq!(board.get(Point::new(1, 2)).unwrap(), boardgame_ai::othello::Cell::Black);
}
