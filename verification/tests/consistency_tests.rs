use vault::board::Board;
use vault::consistency::BoardFault;

const FEN_START: &str = "rnbqkbnr/pppppppp/8/8/8/8/PPPPPPPP/RNBQKBNR w KQkq - 0 1";

#[test]
fn start_position_is_consistent() {
    assert_eq!(Board::new(FEN_START).check_board(), Ok(()));
    assert_eq!(
        Board::new("r3k2r/p1ppqpb1/bn2pnp1/3PN3/1p2P3/2N2Q1p/PPPBBPPP/R3K2R w KQkq - 0 1").check_board(),
        Ok(())
    );
}

#[test]
fn unsynced_bitboard_is_found_first() {
    let mut position = Board::new(FEN_START);
    position.bitboards[4] ^= 1u64 << 20;
    position.occupancies[0] ^= 1u64 << 40;
    assert_eq!(position.check_board(), Err(BoardFault::BitboardUnsynced(4)));
}

#[test]
fn occupancy_faults() {
    let mut position = Board::new(FEN_START);
    position.occupancies[0] ^= 1u64 << 40;
    assert_eq!(position.check_board(), Err(BoardFault::WhiteOccupancy));
    let mut position = Board::new(FEN_START);
    position.occupancies[1] ^= 1u64 << 40;
    assert_eq!(position.check_board(), Err(BoardFault::BlackOccupancy));
}

#[test]
fn en_passant_on_wrong_rank() {
    let mut position = Board::new(FEN_START);
    position.en_passant = Some(20);
    assert_eq!(position.check_board(), Err(BoardFault::EnPassantWrongRank));
}

#[test]
fn missing_king() {
    let position = Board::new("8/8/8/8/8/8/8/4K3 w - - 0 1");
    assert_eq!(position.check_board(), Err(BoardFault::BlackKings(0)));
}

#[test]
fn wrong_key() {
    let mut position = Board::new(FEN_START);
    position.position_key ^= 1;
    assert_eq!(position.check_board(), Err(BoardFault::PositionKey));
}

#[test]
fn consistent_after_moves_and_take_backs() {
    let mut position = Board::new(FEN_START);
    let mut list = vault::movegen::MoveList::new();
    list.generate_all_moves(&position);
    for scored in list.moves.iter() {
        if position.make_move(scored.mv) {
            assert_eq!(position.check_board(), Ok(()));
            position.take_move();
        }
        assert_eq!(position.check_board(), Ok(()));
    }
}
