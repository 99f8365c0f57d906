use vault::movegen::Move;
use vault::transposition_table::{TranspositionData, EXACT_FLAG};

#[test]
fn transposition_data_packs_and_unpacks_correctly() {
    // Pick values that exercise the bitfields.
    let mv = Move::new(
        12,                 // from
        44,                 // to
        17,                 // captured
        0b101,              // flags: enpassant + castle (bits 17 and 19)
        9,                  // promote
    );

    let depth: u8 = 55;      // fits in 6 bits (0..63)
    let age: u8 = 201;
    let flag: u8 = EXACT_FLAG; // fits in 2 bits (0..3)
    let score: i16 = -1234;

    let mut td = TranspositionData(0);
    td.set_move(mv);
    td.set_depth(depth);
    td.set_age(age);
    td.set_flag(flag);
    td.set_score(score);

    // TranspositionData fields
    assert_eq!(td.get_move(), mv);
    assert_eq!(td.get_depth(), depth);
    assert_eq!(td.get_age(), age);
    assert_eq!(td.get_flag(), flag);
    assert_eq!(td.get_score(), score);

    // Also verify the embedded Move bit layout survived packing.
    let mv2 = td.get_move();
    assert_eq!(mv2.from_square(), 12);
    assert_eq!(mv2.to_square(), 44);
    assert_eq!(mv2.captured(), 17);
    assert_eq!(mv2.promoted(), 9);
    assert!(mv2.is_en_passant());
    assert!(!mv2.is_double_push());
    assert!(mv2.is_castling());
}
