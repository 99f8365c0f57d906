use vault::board::Board;
use vault::defs::{Color, Piece, PieceType};
use vault::movegen::{Move, MoveList};
use vault::search::evaluate::generate_isolated_pawn_masks;
use vault::search::Search;
use vault::transposition_table::{TranspositionData, TranspositionTable, EXACT_FLAG};
use vault::uci::{parse_go, parse_i32, parse_u64, position_parts};
use vault::test_suites::epd_section;
use vault::zobrist::ZobristKeys;

const FEN_START: &str = "rnbqkbnr/pppppppp/8/8/8/8/PPPPPPPP/RNBQKBNR w KQkq - 0 1";

#[test]
fn make_gives_back_each_piece() {
    assert!(Piece::make(PieceType::NONE, Color::WHITE) == Piece::NONE);
    assert!(Piece::make(PieceType::ROOK, Color::BLACK) == Piece::BLACK_ROOK);
    for p in Piece::iter() {
        assert!(Piece::make(p.piece_type(), p.color()) == p);
        assert_eq!(p.piece_type().bb_index(p.color()), p.index());
    }
    assert_eq!(PieceType::KING.bb_index(Color::BLACK), 25);
}

#[test]
fn isolated_masks_cover_neighbour_files() {
    let masks = generate_isolated_pawn_masks();
    assert_eq!(masks[0], 0x0202020202020202);
    assert_eq!(masks[8], 0x0202020202020202);
    assert_eq!(masks[3], 0x1414141414141414);
    assert_eq!(masks[36], 0x2828282828282828);
    assert_eq!(masks[63], 0x4040404040404040);
}

#[test]
fn isolated_pawn_costs_its_side() {
    // Pawns on a2 and b2 guard each other's files; on a2 and h2 both are isolated. The
    // squares score alike otherwise.
    let connected = Board::new("4k3/8/8/8/8/8/PP6/4K3 w - - 0 1").evaluate();
    let apart = Board::new("4k3/8/8/8/8/8/P6P/4K3 w - - 0 1").evaluate();
    assert!(connected > apart);
}

#[test]
fn new_data_keeps_its_age() {
    let mv = Move::new(12, 28, 0, 0, 0);
    let d = TranspositionData::new(mv, 7, 9, EXACT_FLAG, -40);
    assert_eq!(d.get_age(), 9);
    assert_eq!(d.get_depth(), 7);
    assert_eq!(d.get_flag(), EXACT_FLAG);
    assert_eq!(d.get_score(), -40);
    assert!(d.get_move() == mv);
}

#[test]
fn boards_share_their_keys() {
    let a = Board::new(FEN_START);
    let b = Board::new(FEN_START);
    assert_eq!(a.position_key, b.position_key);
    let black = Board::new("rnbqkbnr/pppppppp/8/8/8/8/PPPPPPPP/RNBQKBNR b KQkq - 0 1");
    assert_eq!(black.position_key ^ ZobristKeys::standard().side, a.position_key);
}

#[test]
fn quiet_cutoff_becomes_killer() {
    let mut board = Board::new(FEN_START);
    let mut search = Search::new(TranspositionTable::new(10), 0);
    let before = board.history_heuristic;
    // Every move scores above this window, so the first legal move cuts the search off.
    let r = board.alpha_beta(&mut search, -30000, -29999, 1, false);
    assert!(r >= -29999);
    let ply = board.ply as usize;
    let killer = board.killers[ply][0].expect("a quiet move cut the search off");
    let mut list = MoveList::new();
    list.generate_all_moves(&board);
    assert!(list.moves.iter().any(|s| s.mv == killer));
    let p = board.pieces[killer.from_square()].index();
    assert_eq!(board.history_heuristic[p][killer.to_square()], before[p][killer.to_square()] + 1);
}

#[test]
fn table_move_is_searched_first() {
    let mut board = Board::new(FEN_START);
    let mut search = Search::new(TranspositionTable::new(10), 0);
    // h2h3 is generated late among equals; stored as the table's move it is tried first
    // and, with a window every move passes, it alone is searched.
    let h3 = Move::new(15, 23, 0, 0, 0);
    let data = TranspositionData::new(h3, 0, 0, EXACT_FLAG, 0);
    search.transposition_table.store(board.position_key, data);
    board.alpha_beta(&mut search, -30000, -29999, 1, false);
    assert!(board.killers[board.ply as usize][0] == Some(h3));
}

#[test]
fn moves_come_in_generation_order() {
    let board = Board::new(FEN_START);
    let mut list = MoveList::new();
    list.generate_all_moves(&board);
    let from: Vec<usize> = list.moves.iter().map(|s| s.mv.from_square()).collect();
    let to: Vec<usize> = list.moves.iter().map(|s| s.mv.to_square()).collect();
    assert_eq!(from.len(), 20);
    // Single pushes, then double pushes, each by origin square; then the knights.
    assert_eq!(&from[0..8], &[8, 9, 10, 11, 12, 13, 14, 15]);
    assert_eq!(&to[0..8], &[16, 17, 18, 19, 20, 21, 22, 23]);
    assert_eq!(&from[8..16], &[8, 9, 10, 11, 12, 13, 14, 15]);
    assert_eq!(&to[8..16], &[24, 25, 26, 27, 28, 29, 30, 31]);
    assert_eq!(&from[16..20], &[1, 1, 6, 6]);
}

#[test]
fn captures_keep_the_order_of_all_moves() {
    let board = Board::new("r3k2r/p1ppqpb1/bn2pnp1/3PN3/1p2P3/2N2Q1p/PPPBBPPP/R3K2R w KQkq - 0 1");
    let mut all = MoveList::new();
    all.generate_all_moves(&board);
    let mut captures = MoveList::new();
    captures.generate_all_captures(&board);
    let expected: Vec<Move> = all
        .moves
        .iter()
        .filter(|s| s.mv.captured() != 0 || s.mv.is_en_passant())
        .map(|s| s.mv)
        .collect();
    let got: Vec<Move> = captures.moves.iter().map(|s| s.mv).collect();
    assert_eq!(got, expected);
}

#[test]
fn numbers_read_as_rust_reads_them() {
    assert_eq!(parse_u64("1000"), Some(1000));
    assert_eq!(parse_u64("+7"), Some(7));
    assert_eq!(parse_u64("-7"), None);
    assert_eq!(parse_u64(""), None);
    assert_eq!(parse_u64("12a"), None);
    assert_eq!(parse_u64("18446744073709551615"), Some(u64::MAX));
    assert_eq!(parse_u64("18446744073709551616"), None);
    assert_eq!(parse_i32("-2147483648"), Some(i32::MIN));
    assert_eq!(parse_i32("2147483648"), None);
    assert_eq!(parse_i32("-"), None);
    assert_eq!(parse_i32("+12"), Some(12));
    for text in ["0", "42", "-42", "+", "x", "99999999999", "-0"] {
        assert_eq!(parse_i32(text), text.parse::<i32>().ok());
        assert_eq!(parse_u64(text), text.parse::<u64>().ok());
    }
}

#[test]
fn go_options_from_tokens() {
    let o = parse_go(&["wtime", "60000", "btime", "50000", "winc", "1000", "movestogo", "20", "depth", "7"]);
    assert_eq!(o.wtime, Some(60000));
    assert_eq!(o.btime, Some(50000));
    assert_eq!(o.winc, 1000);
    assert_eq!(o.binc, 0);
    assert_eq!(o.movestogo, 20);
    assert_eq!(o.depth, 7);
    assert_eq!(o.movetime, None);
    assert!(!o.infinite);
    let o = parse_go(&["infinite", "depth", "x", "movetime"]);
    assert!(o.infinite);
    assert_eq!(o.depth, 64);
    assert_eq!(o.movetime, None);
    assert_eq!(o.movestogo, 30);
    let o = parse_go(&["movetime", "250", "bogus", "winc"]);
    assert_eq!(o.movetime, Some(250));
    assert_eq!(o.winc, 0);
}

#[test]
fn epd_sections_are_found() {
    let line = "4k3/8/8/8/8/8/8/4K2R w K - bm O-O Kf2; am Ke2; id \"x\";";
    let (s, e) = epd_section(line, " bm ").unwrap();
    assert_eq!(&line[s..e], "O-O Kf2");
    let (s, e) = epd_section(line, " am ").unwrap();
    assert_eq!(&line[s..e], "Ke2");
    assert_eq!(epd_section(line, " xx "), None);
    let (s, e) = epd_section("k7/8/8/8/8/8/8/K7 w - - bm Kb2", " bm ").unwrap();
    assert_eq!((s, e), (27, 30));
}

#[test]
fn position_command_parts() {
    assert_eq!(position_parts(&["startpos"]), Some((true, 1)));
    assert_eq!(position_parts(&["startpos", "moves", "e2e4", "e7e5"]), Some((true, 1)));
    let fen = ["fen", "8/8/8/8/8/8/8/K6k", "w", "-", "-", "0", "1", "moves", "a1a2"];
    assert_eq!(position_parts(&fen), Some((false, 7)));
    assert_eq!(position_parts(&["moves", "e2e4"]), None);
    assert_eq!(position_parts(&["bogus"]), None);
    assert_eq!(position_parts(&[]), None);
}
