use vault::board::Board;
use vault::movegen::{Move, MoveList, MOVE_FLAG_CASTLE, MOVE_FLAG_EN_PASSANT, MOVE_FLAG_NONE};
use vault::perft::{perft, perft_divide};
use vault::search::Search;
use vault::transposition_table::TranspositionTable;
use vault::uci::{time_limit, uci_move};

const FEN_START: &str = "rnbqkbnr/pppppppp/8/8/8/8/PPPPPPPP/RNBQKBNR w KQkq - 0 1";
const KIWIPETE: &str = "r3k2r/p1ppqpb1/bn2pnp1/3PN3/1p2P3/2N2Q1p/PPPBBPPP/R3K2R w KQkq - 0 1";

#[test]
fn perft_divide_splits_the_count() {
    let mut position = Board::new(FEN_START);
    let counts = perft_divide(&mut position, 2);
    assert_eq!(counts.len(), 20);
    assert!(counts.iter().all(|(_, n)| *n == 20));
    let total: usize = counts.iter().map(|(_, n)| n).sum();
    assert_eq!(total, 400);

    let mut position = Board::new(KIWIPETE);
    let counts = perft_divide(&mut position, 1);
    assert_eq!(counts.len(), 48);
    assert!(counts.iter().all(|(_, n)| *n == 1));
    let total: usize = perft_divide(&mut position, 3).iter().map(|(_, n)| n).sum();
    assert_eq!(total, perft(&mut position, 3));
    assert_eq!(position.get_fen(), KIWIPETE);
}

#[test]
fn perft_without_a_king_counts_nothing() {
    let mut position = Board::new("8/8/8/8/8/8/8/4k3 w - - 0 1");
    assert_eq!(perft(&mut position, 2), 0);
    assert!(perft_divide(&mut position, 2).is_empty());
}

#[test]
fn captures_are_among_all_moves() {
    let position = Board::new(KIWIPETE);
    let mut all = MoveList::new();
    all.generate_all_moves(&position);
    let mut captures = MoveList::new();
    captures.generate_all_captures(&position);
    assert_eq!(captures.count, 8);
    for c in captures.moves.iter() {
        assert!(all.moves.iter().any(|m| m.mv == c.mv));
    }
}

#[test]
fn coordinate_moves() {
    let position = Board::new(FEN_START);
    assert_eq!(uci_move(&position, "e2e4"), Some(Move::new(12, 28, 0, MOVE_FLAG_NONE, 0)));
    assert_eq!(uci_move(&position, "g1f3"), Some(Move::new(6, 21, 0, MOVE_FLAG_NONE, 0)));
    assert_eq!(uci_move(&position, "e2"), None);
    assert_eq!(uci_move(&position, "i2e4"), None);
    let castling = Board::new("r3k2r/8/8/8/8/8/8/R3K2R w KQkq - 0 1");
    assert_eq!(uci_move(&castling, "e1g1"), Some(Move::new(4, 6, 0, MOVE_FLAG_CASTLE, 0)));
    let en_passant = Board::new("7k/8/8/3pP3/8/8/8/K7 w - d6 0 1");
    assert_eq!(uci_move(&en_passant, "e5d6"), Some(Move::new(36, 43, 0, MOVE_FLAG_EN_PASSANT, 0)));
    let promotion = Board::new("7k/4P3/8/8/8/8/8/K7 w - - 0 1");
    assert_eq!(uci_move(&promotion, "e7e8q"), Some(Move::new(52, 60, 0, MOVE_FLAG_NONE, 5)));
    assert_eq!(uci_move(&promotion, "e7e8x"), Some(Move::new(52, 60, 0, MOVE_FLAG_NONE, 0)));
    let capture = Board::new("k7/8/8/8/8/8/4r3/4K3 w - - 0 1");
    assert_eq!(uci_move(&capture, "e1e2"), Some(Move::new(4, 12, capture.pieces[12].index(), MOVE_FLAG_NONE, 0)));
}

#[test]
fn time_allotment() {
    assert_eq!(time_limit(true, Some(60000), Some(1000), 1000, 0, 30, None, false), 2950);
    assert_eq!(time_limit(false, Some(60000), Some(1000), 1000, 0, 30, None, false), 33);
    assert_eq!(time_limit(true, Some(60000), None, 0, 0, 30, Some(500), false), 500);
    assert_eq!(time_limit(true, Some(60000), None, 0, 0, 30, None, true), 0);
    assert_eq!(time_limit(true, None, Some(60000), 0, 0, 30, None, false), 0);
}

#[test]
fn principal_variation_is_played_back() {
    let mut position = Board::new("6k1/5ppp/8/8/8/8/8/R6K w - - 0 1");
    let mut search = Search::new(TranspositionTable::new(20), 0);
    let best = position.iterative_deepen(&mut search, 3, true);
    assert_eq!(best.map(|m| m.to_string()), Some("a1a8".to_string()));
    let pv = position.get_pv_line(&search, 3);
    assert!(!pv.is_empty());
    assert_eq!(pv[0].to_string(), "a1a8");
    assert_eq!(search.reports.len(), 3);
    assert_eq!(position.get_fen(), "6k1/5ppp/8/8/8/8/8/R6K w - - 0 1");
}

#[test]
fn refused_castle_changes_nothing() {
    let mut position = Board::new("4k2r/8/8/8/8/8/8/Rr2K2R w KQ - 0 1");
    let fen = position.get_fen();
    let key = position.position_key;
    let (history_ply, ply, fifty) = (position.history_ply, position.ply, position.fifty_move);
    let slot = position.history[position.history_ply];
    assert!(!position.make_move(Move::new(4, 6, 0, MOVE_FLAG_CASTLE, 0)));
    assert_eq!(position.get_fen(), fen);
    assert_eq!(position.position_key, key);
    assert_eq!((position.history_ply, position.ply, position.fifty_move), (history_ply, ply, fifty));
    assert_eq!(position.history[position.history_ply].position_key, slot.position_key);
    assert_eq!(position.history[position.history_ply].mv, slot.mv);
}

#[test]
fn time_comparison() {
    assert!(vault::search::time_is_up(1000, 1000));
    assert!(vault::search::time_is_up(1001, 1000));
    assert!(!vault::search::time_is_up(999, 1000));
    assert!(vault::search::time_is_up(0, 0));
}

#[test]
fn fresh_table_finds_nothing_but_key_zero() {
    let table = TranspositionTable::new(4);
    assert!(table.probe(5).is_none());
    assert!(table.probe(0x1234_5678_9abc_def0).is_none());
    assert_eq!(table.probe(0).map(|d| d.0), Some(0));
}

#[test]
fn shared_keys_give_one_key_per_position() {
    let fen = "r3k2r/Pppp1ppp/1b3nbN/nP6/BBP1P3/q4N2/Pp1P2PP/R2Q1RK1 w kq - 0 1";
    let first = Board::new(FEN_START);
    let second = Board::new_with_keys(fen, &first.keys);
    let mut third = Board::new_with_keys(FEN_START, &first.keys);
    assert_eq!(third.position_key, first.position_key);
    third.parse_fen(fen);
    assert_eq!(third.position_key, second.position_key);
    let mut played = Board::new_with_keys(FEN_START, &first.keys);
    assert!(played.make_move(uci_move(&played, "g1f3").unwrap()));
    assert!(played.make_move(uci_move(&played, "g8f6").unwrap()));
    assert!(played.make_move(uci_move(&played, "f3g1").unwrap()));
    assert!(played.make_move(uci_move(&played, "f6g8").unwrap()));
    assert_eq!(played.position_key, first.position_key);
}

#[test]
fn search_leaves_its_result_for_the_root() {
    let mut position = Board::new(FEN_START);
    let mut search = Search::new(TranspositionTable::new(16), 0);
    let key = position.position_key;
    let score = position.alpha_beta(&mut search, -30000, 30000, 2, false);
    let entry = search.transposition_table.probe(key).unwrap();
    assert_eq!(entry.get_depth(), 2);
    assert_eq!(entry.get_age(), search.age);
    assert_eq!(entry.get_flag(), vault::transposition_table::EXACT_FLAG);
    assert_eq!(entry.get_score() as i32, score);
    let mv = entry.get_move();
    let mut list = MoveList::new();
    list.generate_all_moves(&position);
    assert!(list.moves.iter().any(|s| s.mv == mv));
    assert!(position.make_move(mv));
}

#[test]
fn iterative_deepening_returns_the_root_entry() {
    let mut position = Board::new("6k1/5ppp/8/8/8/8/8/R6K w - - 0 1");
    let mut search = Search::new(TranspositionTable::new(16), 0);
    let best = position.iterative_deepen(&mut search, 2, false).unwrap();
    let entry = search.transposition_table.probe(position.position_key).unwrap();
    assert_eq!(entry.get_depth(), 2);
    assert_eq!(entry.get_move(), best);
    assert_eq!((best.from_square(), best.to_square(), best.promoted()), (0, 56, 0));
    let pv = position.get_pv_line(&search, 2);
    assert_eq!(pv[0], best);
}

#[test]
fn generated_moves_are_listed_once() {
    for fen in [
        FEN_START,
        "r3k2r/p1ppqpb1/bn2pnp1/3PN3/1p2P3/2N2Q1p/PPPBBPPP/R3K2R w KQkq - 0 1",
        "r3k2r/Pppp1ppp/1b3nbN/nP6/BBP1P3/q4N2/Pp1P2PP/R2Q1RK1 w kq - 0 1",
        "7k/8/8/3pP3/8/8/8/K7 w - d6 0 1",
    ] {
        let position = Board::new(fen);
        let mut list = MoveList::new();
        list.generate_all_moves(&position);
        let mut codes: Vec<u32> = list.moves.iter().map(|s| s.mv.0).collect();
        let n = codes.len();
        codes.sort();
        codes.dedup();
        assert_eq!(codes.len(), n);
        let mut captures = MoveList::new();
        captures.generate_all_captures(&position);
        let mut codes: Vec<u32> = captures.moves.iter().map(|s| s.mv.0).collect();
        let n = codes.len();
        codes.sort();
        codes.dedup();
        assert_eq!(codes.len(), n);
    }
}

#[test]
fn perft_divide_lists_each_legal_move_once() {
    let mut position = Board::new("r3k2r/p1ppqpb1/bn2pnp1/3PN3/1p2P3/2N2Q1p/PPPBBPPP/R3K2R w KQkq - 0 1");
    let counts = perft_divide(&mut position, 2);
    assert_eq!(counts.len(), 48);
    let mut codes: Vec<u32> = counts.iter().map(|c| c.0 .0).collect();
    codes.sort();
    codes.dedup();
    assert_eq!(codes.len(), 48);
    assert_eq!(counts.iter().map(|c| c.1).sum::<usize>(), 2039);
}
