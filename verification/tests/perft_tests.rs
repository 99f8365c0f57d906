use vault::board::Board;
use vault::perft::perft;

const FEN_START: &str = "rnbqkbnr/pppppppp/8/8/8/8/PPPPPPPP/RNBQKBNR w KQkq - 0 1";
const KIWIPETE: &str = "r3k2r/p1ppqpb1/bn2pnp1/3PN3/1p2P3/2N2Q1p/PPPBBPPP/R3K2R w KQkq - 0 1";
const POSITION3: &str = "8/2p5/3p4/KP5r/1R3p1k/8/4P1P1/8 w - - 0 1";
const POSITION4: &str = "r3k2r/Pppp1ppp/1b3nbN/nP6/BBP1P3/q4N2/Pp1P2PP/R2Q1RK1 w kq - 0 1";
const POSITION4_FLIPPED: &str = "r2q1rk1/pP1p2pp/Q4n2/bbp1p3/Np6/1B3NBn/pPPP1PPP/R3K2R b KQ - 0 1";
const POSITION5: &str = "rnbq1k1r/pp1Pbppp/2p5/8/2B5/8/PPP1NnPP/RNBQK2R w KQ - 1 8";
const POSITION6: &str = "r4rk1/1pp1qppp/p1np1n2/2b1p1B1/2B1P1b1/P1NP1N2/1PP1QPPP/R4RK1 w - - 0 10";

#[test]
fn mm_perft_depth_1() {
    let mut position = Board::new(FEN_START);
    let mut perft_value = perft(&mut position, 1);
    assert_eq!(perft_value, 20);

    position = Board::new(KIWIPETE);
    perft_value = perft(&mut position, 1);
    assert_eq!(perft_value, 48);

    position = Board::new(POSITION3);
    perft_value = perft(&mut position, 1);
    assert_eq!(perft_value, 14);

    position = Board::new(POSITION4);
    perft_value = perft(&mut position, 1);
    assert_eq!(perft_value, 6);

    position = Board::new(POSITION4_FLIPPED);
    perft_value = perft(&mut position, 1);
    assert_eq!(perft_value, 6);

    position = Board::new(POSITION5);
    perft_value = perft(&mut position, 1);
    assert_eq!(perft_value, 44);

    position = Board::new(POSITION6);
    perft_value = perft(&mut position, 1);
    assert_eq!(perft_value, 46);
}

#[test]
fn mm_perft_depth_2() {
    let mut position = Board::new(FEN_START);
    let mut perft_value = perft(&mut position, 2);
    assert_eq!(perft_value, 400);

    position = Board::new(KIWIPETE);
    perft_value = perft(&mut position, 2);
    assert_eq!(perft_value, 2039);

    position = Board::new(POSITION3);
    perft_value = perft(&mut position, 2);
    assert_eq!(perft_value, 191);

    position = Board::new(POSITION4);
    perft_value = perft(&mut position, 2);
    assert_eq!(perft_value, 264);

    position = Board::new(POSITION4_FLIPPED);
    perft_value = perft(&mut position, 2);
    assert_eq!(perft_value, 264);

    position = Board::new(POSITION5);
    perft_value = perft(&mut position, 2);
    assert_eq!(perft_value, 1486);

    position = Board::new(POSITION6);
    perft_value = perft(&mut position, 2);
    assert_eq!(perft_value, 2079);
}

#[test]
fn mm_perft_depth_3() {
    let mut position = Board::new(FEN_START);
    let mut perft_value = perft(&mut position, 3);
    assert_eq!(perft_value, 8902);

    position = Board::new(KIWIPETE);
    perft_value = perft(&mut position, 3);
    assert_eq!(perft_value, 97862);

    position = Board::new(POSITION3);
    perft_value = perft(&mut position, 3);
    assert_eq!(perft_value, 2812);

    position = Board::new(POSITION4);
    perft_value = perft(&mut position, 3);
    assert_eq!(perft_value, 9467);

    position = Board::new(POSITION4_FLIPPED);
    perft_value = perft(&mut position, 3);
    assert_eq!(perft_value, 9467);

    position = Board::new(POSITION5);
    perft_value = perft(&mut position, 3);
    assert_eq!(perft_value, 62379);

    position = Board::new(POSITION6);
    perft_value = perft(&mut position, 3);
    assert_eq!(perft_value, 89890);
}

#[test]
fn perft_depth_4() {
    let mut position = Board::new(FEN_START);
    let mut perft_value = perft(&mut position, 4);
    assert_eq!(perft_value, 197281);

    position = Board::new(KIWIPETE);
    perft_value = perft(&mut position, 4);
    assert_eq!(perft_value, 4085603);

    position = Board::new(POSITION3);
    perft_value = perft(&mut position, 4);
    assert_eq!(perft_value, 43238);

    position = Board::new(POSITION4);
    perft_value = perft(&mut position, 4);
    assert_eq!(perft_value, 422333);

    position = Board::new(POSITION4_FLIPPED);
    perft_value = perft(&mut position, 4);
    assert_eq!(perft_value, 422333);

    position = Board::new(POSITION5);
    perft_value = perft(&mut position, 4);
    assert_eq!(perft_value, 2103487);

    position = Board::new(POSITION6);
    perft_value = perft(&mut position, 4);
    assert_eq!(perft_value, 3894594);
}
