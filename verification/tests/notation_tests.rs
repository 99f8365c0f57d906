use vault::board::Board;
use vault::defs::Piece;
use vault::movegen::{Move, MoveList, MOVE_FLAG_CASTLE, MOVE_FLAG_NONE, MOVE_FLAG_PAWN_START};
use vault::test_suites::{move_to_san, parse_san};
use vault::text::square_string;

const FEN_START: &str = "rnbqkbnr/pppppppp/8/8/8/8/PPPPPPPP/RNBQKBNR w KQkq - 0 1";
const TWO_KNIGHTS: &str = "4k3/8/8/8/8/8/8/1N2KN2 w - - 0 1";
const TWO_ROOKS_ONE_FILE: &str = "4k3/R7/8/8/8/8/8/R3K3 w - - 0 1";
const CASTLING: &str = "r3k2r/8/8/8/8/8/8/R3K2R w KQkq - 0 1";
const PAWN_CAPTURE: &str = "4k3/8/8/3p4/4P3/8/8/4K3 w - - 0 1";
const PROMOTION: &str = "4k3/P7/8/8/8/8/8/4K3 w - - 0 1";
const PROMOTION_E7: &str = "7k/4P3/8/8/8/8/8/K7 w - - 0 1";

fn squares(mv: Move) -> (usize, usize) {
    (mv.from_square(), mv.to_square())
}

#[test]
fn parse_san_pawn_double_push() {
    let position = Board::new(FEN_START);
    let mv = parse_san(&position, "e4").expect("e4 is a move of the start position");
    assert_eq!(squares(mv), (12, 28));
    assert!(mv.is_double_push());
    assert_eq!(mv, Move::new(12, 28, 0, MOVE_FLAG_PAWN_START, 0));
}

#[test]
fn parse_san_knight_with_check_mark() {
    let position = Board::new(FEN_START);
    let mv = parse_san(&position, "Nf3+").expect("Nf3 is a move of the start position");
    assert_eq!(mv, Move::new(6, 21, 0, MOVE_FLAG_NONE, 0));
}

#[test]
fn parse_san_disambiguates_by_file() {
    let position = Board::new(TWO_KNIGHTS);
    assert_eq!(squares(parse_san(&position, "Nbd2").unwrap()), (1, 11));
    assert_eq!(squares(parse_san(&position, "Nfd2").unwrap()), (5, 11));
    // Without disambiguation the first generated knight move to d2 is taken.
    assert_eq!(parse_san(&position, "Nd2").unwrap().to_square(), 11);
}

#[test]
fn parse_san_disambiguates_by_rank() {
    let position = Board::new(TWO_ROOKS_ONE_FILE);
    assert_eq!(squares(parse_san(&position, "R1a4").unwrap()), (0, 24));
    assert_eq!(squares(parse_san(&position, "R7a4").unwrap()), (48, 24));
}

#[test]
fn parse_san_castling() {
    let position = Board::new(CASTLING);
    let short = parse_san(&position, "O-O").unwrap();
    assert!(short.is_castling());
    assert_eq!(squares(short), (4, 6));
    let long = parse_san(&position, "O-O-O+").unwrap();
    assert!(long.is_castling());
    assert_eq!(squares(long), (4, 2));
}

#[test]
fn parse_san_pawn_capture() {
    let position = Board::new(PAWN_CAPTURE);
    let mv = parse_san(&position, "exd5").unwrap();
    assert_eq!(squares(mv), (28, 35));
    assert_ne!(mv.captured(), 0);
}

#[test]
fn parse_san_rejects_what_names_no_move() {
    let position = Board::new(FEN_START);
    assert_eq!(parse_san(&position, "e5"), None);
    assert_eq!(parse_san(&position, "Zf3"), None);
    assert_eq!(parse_san(&position, "Nf9"), None);
    assert_eq!(parse_san(&position, "x"), None);
    assert_eq!(parse_san(&position, ""), None);
    assert_eq!(parse_san(&position, "O-O"), None);
}

#[test]
fn parse_san_reads_promotion_letters() {
    let position = Board::new(PROMOTION);
    assert_eq!(
        parse_san(&position, "a8=Q"),
        Some(Move::new(48, 56, 0, MOVE_FLAG_NONE, Piece::WHITE_QUEEN.index()))
    );
    assert_eq!(
        parse_san(&position, "a8=N"),
        Some(Move::new(48, 56, 0, MOVE_FLAG_NONE, Piece::WHITE_KNIGHT.index()))
    );
    assert_eq!(parse_san(&position, "a8=r").map(|m| m.promoted()), Some(Piece::WHITE_ROOK.index()));
    assert_eq!(parse_san(&position, "a8=K"), None);
    assert_eq!(parse_san(&position, "a8"), None);
    let position = Board::new(PROMOTION_E7);
    assert_eq!(
        parse_san(&position, "e8=Q"),
        Some(Move::new(52, 60, 0, MOVE_FLAG_NONE, Piece::WHITE_QUEEN.index()))
    );
    assert_eq!(parse_san(&position, "e8=N").map(|m| m.promoted()), Some(Piece::WHITE_KNIGHT.index()));
}

#[test]
fn move_to_san_simple_moves() {
    let position = Board::new(FEN_START);
    assert_eq!(move_to_san(&position, Move::new(12, 28, 0, MOVE_FLAG_PAWN_START, 0)), "e4");
    assert_eq!(move_to_san(&position, Move::new(6, 21, 0, MOVE_FLAG_NONE, 0)), "Nf3");
}

#[test]
fn move_to_san_disambiguation() {
    let position = Board::new(TWO_KNIGHTS);
    assert_eq!(move_to_san(&position, Move::new(1, 11, 0, MOVE_FLAG_NONE, 0)), "Nbd2");
    assert_eq!(move_to_san(&position, Move::new(5, 11, 0, MOVE_FLAG_NONE, 0)), "Nfd2");
    let position = Board::new(TWO_ROOKS_ONE_FILE);
    assert_eq!(move_to_san(&position, Move::new(0, 24, 0, MOVE_FLAG_NONE, 0)), "R1a4");
}

#[test]
fn move_to_san_castling_and_captures() {
    let position = Board::new(CASTLING);
    assert_eq!(move_to_san(&position, Move::new(4, 6, 0, MOVE_FLAG_CASTLE, 0)), "O-O");
    assert_eq!(move_to_san(&position, Move::new(4, 2, 0, MOVE_FLAG_CASTLE, 0)), "O-O-O");
    let position = Board::new(PAWN_CAPTURE);
    let capture = parse_san(&position, "exd5").unwrap();
    assert_eq!(move_to_san(&position, capture), "exd5");
}

#[test]
fn move_to_san_writes_promotion_letters() {
    let position = Board::new(PROMOTION);
    let mut list = MoveList::new();
    list.generate_all_moves(&position);
    let mut written: Vec<String> = list
        .moves
        .iter()
        .map(|s| s.mv)
        .filter(|m| m.promoted() != 0)
        .map(|m| move_to_san(&position, m))
        .collect();
    written.sort();
    assert_eq!(written, vec!["a8=B", "a8=N", "a8=Q", "a8=R"]);
    let position = Board::new(PROMOTION_E7);
    assert_eq!(
        move_to_san(&position, Move::new(52, 60, 0, MOVE_FLAG_NONE, Piece::WHITE_QUEEN.index())),
        "e8=Q"
    );
    let black = Board::new("4k3/8/8/8/8/8/p7/4K3 b - - 0 1");
    let mv = parse_san(&black, "a1=N").unwrap();
    assert_eq!(mv.promoted(), Piece::BLACK_KNIGHT.index());
    assert_eq!(move_to_san(&black, mv), "a1=N");
}

#[test]
fn san_round_trip_in_start_position() {
    let position = Board::new(FEN_START);
    let mut list = MoveList::new();
    list.generate_all_moves(&position);
    for scored in list.moves.iter() {
        let text = move_to_san(&position, scored.mv);
        assert_eq!(parse_san(&position, &text), Some(scored.mv), "{}", text);
    }
}

#[test]
fn square_names() {
    assert_eq!(square_string(0), "a1");
    assert_eq!(square_string(28), "e4");
    assert_eq!(square_string(63), "h8");
}

#[test]
fn move_text_in_coordinates() {
    assert_eq!(Move::new(12, 28, 0, MOVE_FLAG_PAWN_START, 0).to_string(), "e2e4");
}

#[test]
fn fen_of_start_position() {
    let position = Board::new(FEN_START);
    assert_eq!(position.get_fen(), FEN_START);
}

#[test]
fn fen_round_trip() {
    for fen in [
        "r3k2r/p1ppqpb1/bn2pnp1/3PN3/1p2P3/2N2Q1p/PPPBBPPP/R3K2R w KQkq - 0 1",
        "8/2p5/3p4/KP5r/1R3p1k/8/4P1P1/8 w - - 0 1",
        "rnbqkbnr/ppp1p1pp/8/3pPp2/8/8/PPPP1PPP/RNBQKBNR w KQkq f6 0 1",
        "4k3/8/8/8/8/8/8/4K3 b - - 0 1",
    ] {
        assert_eq!(Board::new(fen).get_fen(), fen);
    }
}

#[test]
fn fen_clocks_start_afresh() {
    // The halfmove clock and move number of a FEN are not read: a parsed position starts
    // both afresh.
    assert_eq!(Board::new("4k3/8/8/8/8/8/8/4K3 b - - 12 30").get_fen(), "4k3/8/8/8/8/8/8/4K3 b - - 0 1");
}

#[test]
fn fen_after_moves() {
    let mut position = Board::new(FEN_START);
    assert!(position.make_move(Move::new(12, 28, 0, MOVE_FLAG_PAWN_START, 0)));
    assert_eq!(position.get_fen(), "rnbqkbnr/pppppppp/8/8/4P3/8/PPPP1PPP/RNBQKBNR b KQkq e3 0 1");
    assert!(position.make_move(Move::new(57, 42, 0, MOVE_FLAG_NONE, 0)));
    assert_eq!(position.get_fen(), "r1bqkbnr/pppppppp/2n5/8/4P3/8/PPPP1PPP/RNBQKBNR w KQkq - 1 2");
}

#[test]
fn evaluation_of_symmetric_positions_is_zero() {
    assert_eq!(Board::new(FEN_START).evaluate(), 0);
    assert_eq!(Board::new("rnbqkbnr/pppppppp/8/8/8/8/PPPPPPPP/RNBQKBNR b KQkq - 0 1").evaluate(), 0);
}

#[test]
fn evaluation_favours_extra_material_and_flips_with_side() {
    let white_up = Board::new("4k3/8/8/8/8/8/8/Q3K3 w - - 0 1").evaluate();
    let black_to_move = Board::new("4k3/8/8/8/8/8/8/Q3K3 b - - 0 1").evaluate();
    assert!(white_up > 900);
    assert_eq!(black_to_move, -white_up);
}

#[test]
fn evaluation_mirrors() {
    let a = Board::new("4k3/8/8/8/8/8/3P4/4K3 w - - 0 1").evaluate();
    let b = Board::new("4k3/3p4/8/8/8/8/8/4K3 b - - 0 1").evaluate();
    assert_eq!(a, b);
}
