//! The commands of the Universal Chess Interface that the engine answers, and the parts
//! of answering them that decide something: reading a move in coordinate notation and
//! allotting time to a search.
use vstd::prelude::*;
use crate::board::Board;
use crate::defs::{Color, Piece, PieceType};
use crate::movegen::{encode_move, Move, MOVE_FLAG_CASTLE, MOVE_FLAG_EN_PASSANT, MOVE_FLAG_NONE};
use crate::test_suites::square_named;
use vstd::string::*;

verus! {

/// A command line read from the interface, with the text that follows its keyword where
/// the command takes any.
pub enum UciCommand {
    Quit,
    Uci,
    SetOption(String),
    Position(String),
    UciNewGame,
    IsReady,
    Go(String),
    Stop,
    Unknown,
    Testing(String),
    Generate,
}

/// The promotion a five-character move asks for, as a piece-type number (knight 2,
/// bishop 3, rook 4, queen 5), or 0.
pub open spec fn uci_promote(text: Seq<u8>) -> nat {
    if text.len() == 5 {
        let c = text[4];
        if c == 110 {
            2
        } else if c == 98 {
            3
        } else if c == 114 {
            4
        } else if c == 113 {
            5
        } else {
            0
        }
    } else {
        0
    }
}

/// A five-character move asks for the promotion its last letter names, the letter FEN
/// gives the black piece (lower case) and move notation writes after the squares: `n`,
/// `b`, `r`, `q` for knight, bishop, rook and queen. Any other letter, or a shorter or
/// longer text, asks for none.
pub proof fn lemma_uci_promotion_letters(text: Seq<u8>, pt: PieceType)
    requires
        pt == PieceType::KNIGHT || pt == PieceType::BISHOP || pt == PieceType::ROOK || pt == PieceType::QUEEN,
    ensures
        text.len() == 5 ==> ((uci_promote(text) == pt.idx()) == (text[4] == crate::fen::piece_letter(Piece::of(pt, Color::BLACK)))),
        text.len() == 5 && seq![text[4]] == crate::text::promo_bytes(Piece::of(pt, Color::WHITE).idx()) ==> uci_promote(text) == pt.idx(),
        uci_promote(text) != 0 ==> text.len() == 5 && (text[4] == crate::fen::piece_letter(Piece::BLACK_KNIGHT)
            || text[4] == crate::fen::piece_letter(Piece::BLACK_BISHOP) || text[4] == crate::fen::piece_letter(Piece::BLACK_ROOK)
            || text[4] == crate::fen::piece_letter(Piece::BLACK_QUEEN)),
{
    if text.len() == 5 && seq![text[4]] == crate::text::promo_bytes(Piece::of(pt, Color::WHITE).idx()) {
        assert(seq![text[4]][0] == text[4]);
    }
}

/// The flags of a move from `from` to `to`: castling for a king that moves two files,
/// en passant for a pawn that moves diagonally onto an empty square.
pub open spec fn uci_flags(ps: Seq<Piece>, from: int, to: int) -> nat {
    let mover = ps[from].ptype();
    if mover == PieceType::PAWN && ps[to] == Piece::NONE && (to % 8 - from % 8 == 1 || from % 8 - to % 8 == 1) {
        1
    } else if mover == PieceType::KING && (to - from == 2 || from - to == 2) {
        4
    } else {
        0
    }
}

/// The move that coordinate notation (`e2e4`, `e7e8q`) names on these squares: the
/// piece on the target square is the one captured.
pub open spec fn uci_text_move(ps: Seq<Piece>, text: Seq<u8>) -> Option<Move> {
    if text.len() >= 4 {
        match (square_named(text[0], text[1]), square_named(text[2], text[3])) {
            (Some(from), Some(to)) => Some(
                Move(encode_move(from as u32, to as u32, ps[to as int].idx() as u32, uci_flags(ps, from as int, to as int) as u32, uci_promote(text) as u32)),
            ),
            _ => None,
        }
    } else {
        None
    }
}

/// Reads a move in coordinate notation; `None` when the text does not start with two
/// square names.
pub fn uci_move(position: &Board, text: &str) -> (r: Option<Move>)
    ensures
        r == uci_text_move(position.pieces@, text.spec_bytes()),
{
    let b = text.as_bytes();
    if b.len() < 4 {
        return None;
    }
    if !(97 <= b[0] && b[0] <= 104 && 49 <= b[1] && b[1] <= 56 && 97 <= b[2] && b[2] <= 104 && 49 <= b[3] && b[3] <= 56) {
        return None;
    }
    let from = ((b[1] - 49) as usize) * 8 + (b[0] - 97) as usize;
    let to = ((b[3] - 49) as usize) * 8 + (b[2] - 97) as usize;
    let captured = position.pieces[to];
    let moving = position.pieces[from].piece_type();
    let mut promote: usize = 0;
    if b.len() == 5 {
        let c = b[4];
        promote = if c == 110 {
            PieceType::KNIGHT.index()
        } else if c == 98 {
            PieceType::BISHOP.index()
        } else if c == 114 {
            PieceType::ROOK.index()
        } else if c == 113 {
            PieceType::QUEEN.index()
        } else {
            PieceType::NONE.index()
        };
    }
    let mut flags = MOVE_FLAG_NONE;
    if moving == PieceType::KING && (to == from + 2 || from == to + 2) {
        flags = MOVE_FLAG_CASTLE;
    }
    if moving == PieceType::PAWN && captured == Piece::NONE && (to % 8 == from % 8 + 1 || from % 8 == to % 8 + 1) {
        flags = MOVE_FLAG_EN_PASSANT;
    }
    Some(Move::new(from, to, captured.index(), flags, promote))
}

/// The time a search may take, in milliseconds (0 for no limit): none when told to
/// search without end, the fixed move time when given one, else the clock of the side
/// to move split over the moves to go, less a 50 ms margin when over it, plus the
/// increment.
pub open spec fn time_allowance(
    white_to_move: bool,
    wtime: Option<u64>,
    btime: Option<u64>,
    winc: u64,
    binc: u64,
    movestogo: u64,
    movetime: Option<u64>,
    infinite: bool,
) -> int {
    if infinite {
        0
    } else if movetime is Some {
        movetime->0 as int
    } else {
        let (left, inc) = if white_to_move { (wtime, winc) } else { (btime, binc) };
        match left {
            Some(t) => {
                let alloc = t / movestogo;
                (if alloc > 50 { alloc - 50 } else { alloc as int }) + inc
            },
            None => 0,
        }
    }
}

/// Allots the time of a search from the options of a `go` command.
pub fn time_limit(
    white_to_move: bool,
    wtime: Option<u64>,
    btime: Option<u64>,
    winc: u64,
    binc: u64,
    movestogo: u64,
    movetime: Option<u64>,
    infinite: bool,
) -> (ms: u128)
    requires
        movestogo != 0,
        time_allowance(white_to_move, wtime, btime, winc, binc, movestogo, movetime, infinite) <= u64::MAX,
    ensures
        ms == time_allowance(white_to_move, wtime, btime, winc, binc, movestogo, movetime, infinite),
{
    if infinite {
        return 0;
    }
    if let Some(mt) = movetime {
        return mt as u128;
    }
    let (left, inc) = if white_to_move { (wtime, winc) } else { (btime, binc) };
    match left {
        Some(t) => {
            let mut alloc = t / movestogo;
            if alloc > 50 {
                alloc -= 50;
            }
            (alloc + inc) as u128
        },
        None => 0,
    }
}

/// The options of a `go` command: the depth to search, the clocks and increments of
/// both sides in milliseconds, the moves to the next time control, a fixed time for the
/// move, and whether to search without end.
pub struct GoOptions {
    pub depth: i32,
    pub wtime: Option<u64>,
    pub btime: Option<u64>,
    pub winc: u64,
    pub binc: u64,
    pub movestogo: u64,
    pub movetime: Option<u64>,
    pub infinite: bool,
}

/// The options of a `go` command that names none.
pub open spec fn go_defaults() -> GoOptions {
    GoOptions { depth: 64, wtime: None, btime: None, winc: 0, binc: 0, movestogo: 30, movetime: None, infinite: false }
}

/// The number that decimal digits write.
pub open spec fn digits_value(d: Seq<u8>) -> int
    decreases d.len(),
{
    if d.len() == 0 {
        0
    } else {
        digits_value(d.drop_last()) * 10 + (d.last() as int - 48)
    }
}

/// One or more decimal digits.
pub open spec fn all_digits(d: Seq<u8>) -> bool {
    d.len() > 0 && forall|i: int| 0 <= i < d.len() ==> 48 <= #[trigger] d[i] <= 57
}

/// The number that text writes as Rust's integer parsing reads it: an optional sign
/// (`-` only when `signed`), then one or more decimal digits.
pub open spec fn decimal_value(b: Seq<u8>, signed: bool) -> Option<int> {
    if b.len() > 0 && (b[0] == 43 || (signed && b[0] == 45)) {
        let d = b.subrange(1, b.len() as int);
        if all_digits(d) {
            Some(if b[0] == 45 { -digits_value(d) } else { digits_value(d) })
        } else {
            None
        }
    } else if all_digits(b) {
        Some(digits_value(b))
    } else {
        None
    }
}

/// The `u64` that text writes, if it writes one that fits.
pub open spec fn u64_text(b: Seq<u8>) -> Option<u64> {
    match decimal_value(b, false) {
        Some(v) => if v <= u64::MAX { Some(v as u64) } else { None },
        None => None,
    }
}

/// The `i32` that text writes, if it writes one that fits.
pub open spec fn i32_text(b: Seq<u8>) -> Option<i32> {
    match decimal_value(b, true) {
        Some(v) => if i32::MIN <= v <= i32::MAX { Some(v as i32) } else { None },
        None => None,
    }
}

proof fn lemma_digits_nonneg(d: Seq<u8>)
    requires
        forall|i: int| 0 <= i < d.len() ==> 48 <= #[trigger] d[i] <= 57,
    ensures
        digits_value(d) >= 0,
    decreases d.len(),
{
    if d.len() > 0 {
        lemma_digits_nonneg(d.drop_last());
    }
}

/// More digits never write a smaller number.
proof fn lemma_digits_grow(d: Seq<u8>, i: int)
    requires
        0 <= i <= d.len(),
        forall|k: int| 0 <= k < d.len() ==> 48 <= #[trigger] d[k] <= 57,
    ensures
        digits_value(d.subrange(0, i)) <= digits_value(d),
    decreases d.len() - i,
{
    if i < d.len() {
        lemma_digits_grow(d, i + 1);
        let e = d.subrange(0, i + 1);
        assert(e.drop_last() =~= d.subrange(0, i));
        lemma_digits_nonneg(d.subrange(0, i));
    } else {
        assert(d.subrange(0, i) =~= d);
    }
}

/// The number that the digits `b[start..]` write, if they are one or more digits and
/// the number is at most `max`.
fn digits_up_to(b: &[u8], start: usize, max: u64) -> (r: Option<u64>)
    requires
        start <= b@.len(),
        max >= 9,
    ensures
        r == (if all_digits(b@.subrange(start as int, b@.len() as int))
            && digits_value(b@.subrange(start as int, b@.len() as int)) <= max {
            Some(digits_value(b@.subrange(start as int, b@.len() as int)) as u64)
        } else {
            None
        }),
        r matches Some(v) ==> v <= max && v == digits_value(b@.subrange(start as int, b@.len() as int)),
{
    let ghost d = b@.subrange(start as int, b@.len() as int);
    if start == b.len() {
        return None;
    }
    let mut acc: u64 = 0;
    let mut i: usize = start;
    while i < b.len()
        invariant
            start <= i <= b@.len(),
            d == b@.subrange(start as int, b@.len() as int),
            forall|k: int| start <= k < i ==> 48 <= #[trigger] b@[k] <= 57,
            acc == digits_value(b@.subrange(start as int, i as int)),
            acc <= max,
            max >= 9,
        decreases b@.len() - i,
    {
        let c = b[i];
        if c < 48 || c > 57 {
            proof {
                assert(d[i - start] == c);
            }
            return None;
        }
        let dig = (c - 48) as u64;
        proof {
            assert(b@.subrange(start as int, i + 1).drop_last() =~= b@.subrange(start as int, i as int));
        }
        if acc > (max - dig) / 10 {
            proof {
                assert(acc * 10 + dig > max) by (nonlinear_arith)
                    requires
                        acc > (max - dig) / 10,
                        dig <= max || dig > max,
                ;
                if all_digits(d) {
                    assert(d.subrange(0, i + 1 - start) =~= b@.subrange(start as int, i + 1));
                    lemma_digits_grow(d, i + 1 - start);
                }
            }
            return None;
        }
        proof {
            assert(acc * 10 + dig <= max) by (nonlinear_arith)
                requires
                    acc <= (max - dig) / 10,
                    dig <= max,
            ;
        }
        acc = acc * 10 + dig;
        i += 1;
    }
    proof {
        assert(b@.subrange(start as int, i as int) =~= d);
    }
    Some(acc)
}

/// Reads an unsigned number as Rust's `u64` parsing does.
pub fn parse_u64(text: &str) -> (r: Option<u64>)
    ensures
        r == u64_text(text.spec_bytes()),
{
    let b = text.as_bytes();
    let start: usize = if b.len() > 0 && b[0] == 43 { 1 } else { 0 };
    let r = digits_up_to(b, start, u64::MAX);
    proof {
        if start == 0 {
            assert(b@.subrange(0, b@.len() as int) =~= b@);
        }
    }
    r
}

/// Reads a signed number as Rust's `i32` parsing does.
pub fn parse_i32(text: &str) -> (r: Option<i32>)
    ensures
        r == i32_text(text.spec_bytes()),
{
    let b = text.as_bytes();
    let negative = b.len() > 0 && b[0] == 45;
    let start: usize = if b.len() > 0 && (b[0] == 43 || b[0] == 45) { 1 } else { 0 };
    proof {
        if start == 0 {
            assert(b@.subrange(0, b@.len() as int) =~= b@);
        }
    }
    let limit: u64 = if negative { 2147483648 } else { 2147483647 };
    match digits_up_to(b, start, limit) {
        Some(v) => {
            let w = v as i64;
            if negative {
                Some((-w) as i32)
            } else {
                Some(w as i32)
            }
        },
        None => {
            proof {
                let d = b@.subrange(start as int, b@.len() as int);
                if all_digits(d) {
                    lemma_digits_nonneg(d);
                }
            }
            None
        },
    }
}

/// Whether the bytes are the word `w`.
fn word_is(a: &[u8], w: &[u8]) -> (r: bool)
    ensures
        r == (a@ == w@),
{
    if a.len() != w.len() {
        return false;
    }
    let mut i: usize = 0;
    while i < a.len()
        invariant
            a@.len() == w@.len(),
            i <= a@.len(),
            forall|k: int| 0 <= k < i ==> a@[k] == w@[k],
        decreases a@.len() - i,
    {
        if a[i] != w[i] {
            return false;
        }
        i += 1;
    }
    proof {
        assert(a@ =~= w@);
    }
    true
}

pub open spec fn word_wtime() -> Seq<u8> { seq![119u8, 116, 105, 109, 101] }
pub open spec fn word_btime() -> Seq<u8> { seq![98u8, 116, 105, 109, 101] }
pub open spec fn word_winc() -> Seq<u8> { seq![119u8, 105, 110, 99] }
pub open spec fn word_binc() -> Seq<u8> { seq![98u8, 105, 110, 99] }
pub open spec fn word_movestogo() -> Seq<u8> { seq![109u8, 111, 118, 101, 115, 116, 111, 103, 111] }
pub open spec fn word_depth() -> Seq<u8> { seq![100u8, 101, 112, 116, 104] }
pub open spec fn word_movetime() -> Seq<u8> { seq![109u8, 111, 118, 101, 116, 105, 109, 101] }
pub open spec fn word_infinite() -> Seq<u8> { seq![105u8, 110, 102, 105, 110, 105, 116, 101] }

/// The options that the tokens from `i` on set, starting from `o`: `wtime`, `btime`,
/// `movetime` take the number that follows (none when it is not one), `winc`, `binc`,
/// `movestogo` and `depth` take it or their defaults (0, 0, 30, 64), each of these
/// consuming the token after it; `infinite` is set by its word alone; other tokens are
/// passed over.
pub open spec fn go_scan(tokens: Seq<&str>, i: nat, o: GoOptions) -> GoOptions
    decreases tokens.len() - i,
{
    if i >= tokens.len() {
        o
    } else {
        let w = tokens[i as int].spec_bytes();
        let has_next = i + 1 < tokens.len();
        let after = if has_next { (i + 2) as nat } else { tokens.len() };
        let n64 = if has_next { u64_text(tokens[i + 1int].spec_bytes()) } else { None };
        let n32 = if has_next { i32_text(tokens[i + 1int].spec_bytes()) } else { None };
        if w == word_wtime() {
            go_scan(tokens, after, GoOptions { wtime: n64, ..o })
        } else if w == word_btime() {
            go_scan(tokens, after, GoOptions { btime: n64, ..o })
        } else if w == word_winc() {
            go_scan(tokens, after, GoOptions { winc: match n64 { Some(v) => v, None => 0 }, ..o })
        } else if w == word_binc() {
            go_scan(tokens, after, GoOptions { binc: match n64 { Some(v) => v, None => 0 }, ..o })
        } else if w == word_movestogo() {
            go_scan(tokens, after, GoOptions { movestogo: match n64 { Some(v) => v, None => 30 }, ..o })
        } else if w == word_depth() {
            go_scan(tokens, after, GoOptions { depth: match n32 { Some(v) => v, None => 64 }, ..o })
        } else if w == word_movetime() {
            go_scan(tokens, after, GoOptions { movetime: n64, ..o })
        } else if w == word_infinite() {
            go_scan(tokens, (i + 1) as nat, GoOptions { infinite: true, ..o })
        } else {
            go_scan(tokens, (i + 1) as nat, o)
        }
    }
}

/// Scanning from `j + i` reads the same options as scanning the tokens from `j` on from `i`.
proof fn lemma_go_scan_shift(tokens: Seq<&str>, j: nat, i: nat, o: GoOptions)
    requires
        j <= tokens.len(),
    ensures
        go_scan(tokens, j + i, o) == go_scan(tokens.subrange(j as int, tokens.len() as int), i, o),
    decreases tokens.len() - (j + i),
{
    let rest = tokens.subrange(j as int, tokens.len() as int);
    if j + i < tokens.len() {
        let w = tokens[(j + i) as int].spec_bytes();
        assert(rest[i as int] == tokens[(j + i) as int]);
        if j + i + 1 < tokens.len() {
            assert(rest[i + 1int] == tokens[j + i + 1int]);
        }
        let has_next = j + i + 1 < tokens.len();
        let n64 = if has_next { u64_text(tokens[j + i + 1int].spec_bytes()) } else { None };
        let n32 = if has_next { i32_text(tokens[j + i + 1int].spec_bytes()) } else { None };
        let k: nat = if has_next { i + 2 } else { i + 1 };
        lemma_go_scan_shift(tokens, j, k, GoOptions { wtime: n64, ..o });
        lemma_go_scan_shift(tokens, j, k, GoOptions { btime: n64, ..o });
        lemma_go_scan_shift(tokens, j, k, GoOptions { winc: match n64 { Some(v) => v, None => 0 }, ..o });
        lemma_go_scan_shift(tokens, j, k, GoOptions { binc: match n64 { Some(v) => v, None => 0 }, ..o });
        lemma_go_scan_shift(tokens, j, k, GoOptions { movestogo: match n64 { Some(v) => v, None => 30 }, ..o });
        lemma_go_scan_shift(tokens, j, k, GoOptions { depth: match n32 { Some(v) => v, None => 64 }, ..o });
        lemma_go_scan_shift(tokens, j, k, GoOptions { movetime: n64, ..o });
        lemma_go_scan_shift(tokens, j, i + 1, GoOptions { infinite: true, ..o });
        lemma_go_scan_shift(tokens, j, i + 1, o);
    }
}

/// Each option that a scan gives depends only on that option's value at the start.
proof fn lemma_go_scan_fields(tokens: Seq<&str>, i: nat, a: GoOptions, b: GoOptions)
    ensures
        a.depth == b.depth ==> go_scan(tokens, i, a).depth == go_scan(tokens, i, b).depth,
        a.wtime == b.wtime ==> go_scan(tokens, i, a).wtime == go_scan(tokens, i, b).wtime,
        a.btime == b.btime ==> go_scan(tokens, i, a).btime == go_scan(tokens, i, b).btime,
        a.winc == b.winc ==> go_scan(tokens, i, a).winc == go_scan(tokens, i, b).winc,
        a.binc == b.binc ==> go_scan(tokens, i, a).binc == go_scan(tokens, i, b).binc,
        a.movestogo == b.movestogo ==> go_scan(tokens, i, a).movestogo == go_scan(tokens, i, b).movestogo,
        a.movetime == b.movetime ==> go_scan(tokens, i, a).movetime == go_scan(tokens, i, b).movetime,
        a.infinite == b.infinite ==> go_scan(tokens, i, a).infinite == go_scan(tokens, i, b).infinite,
    decreases tokens.len() - i,
{
    if i < tokens.len() {
        let has_next = i + 1 < tokens.len();
        let after = if has_next { (i + 2) as nat } else { tokens.len() };
        let n64 = if has_next { u64_text(tokens[i + 1int].spec_bytes()) } else { None };
        let n32 = if has_next { i32_text(tokens[i + 1int].spec_bytes()) } else { None };
        let wv = match n64 { Some(v) => v, None => 0 };
        let mv = match n64 { Some(v) => v, None => 30 };
        let dv = match n32 { Some(v) => v, None => 64 };
        lemma_go_scan_fields(tokens, after, GoOptions { wtime: n64, ..a }, GoOptions { wtime: n64, ..b });
        lemma_go_scan_fields(tokens, after, GoOptions { btime: n64, ..a }, GoOptions { btime: n64, ..b });
        lemma_go_scan_fields(tokens, after, GoOptions { winc: wv, ..a }, GoOptions { winc: wv, ..b });
        lemma_go_scan_fields(tokens, after, GoOptions { binc: wv, ..a }, GoOptions { binc: wv, ..b });
        lemma_go_scan_fields(tokens, after, GoOptions { movestogo: mv, ..a }, GoOptions { movestogo: mv, ..b });
        lemma_go_scan_fields(tokens, after, GoOptions { depth: dv, ..a }, GoOptions { depth: dv, ..b });
        lemma_go_scan_fields(tokens, after, GoOptions { movetime: n64, ..a }, GoOptions { movetime: n64, ..b });
        lemma_go_scan_fields(tokens, (i + 1) as nat, GoOptions { infinite: true, ..a }, GoOptions { infinite: true, ..b });
        lemma_go_scan_fields(tokens, (i + 1) as nat, a, b);
    }
}

/// No token from `i` on is the word `w`.
pub open spec fn word_absent(tokens: Seq<&str>, i: int, w: Seq<u8>) -> bool {
    forall|j: int| i <= j < tokens.len() ==> #[trigger] tokens[j].spec_bytes() != w
}

/// An option whose word no token from `i` on holds keeps its value through the scan.
proof fn lemma_go_scan_keeps(tokens: Seq<&str>, i: nat, o: GoOptions)
    ensures
        word_absent(tokens, i as int, seq![100u8, 101, 112, 116, 104]) ==> go_scan(tokens, i, o).depth == o.depth,
        word_absent(tokens, i as int, seq![119u8, 116, 105, 109, 101]) ==> go_scan(tokens, i, o).wtime == o.wtime,
        word_absent(tokens, i as int, seq![98u8, 116, 105, 109, 101]) ==> go_scan(tokens, i, o).btime == o.btime,
        word_absent(tokens, i as int, seq![119u8, 105, 110, 99]) ==> go_scan(tokens, i, o).winc == o.winc,
        word_absent(tokens, i as int, seq![98u8, 105, 110, 99]) ==> go_scan(tokens, i, o).binc == o.binc,
        word_absent(tokens, i as int, seq![109u8, 111, 118, 101, 115, 116, 111, 103, 111]) ==> go_scan(tokens, i, o).movestogo == o.movestogo,
        word_absent(tokens, i as int, seq![109u8, 111, 118, 101, 116, 105, 109, 101]) ==> go_scan(tokens, i, o).movetime == o.movetime,
        word_absent(tokens, i as int, seq![105u8, 110, 102, 105, 110, 105, 116, 101]) ==> go_scan(tokens, i, o).infinite == o.infinite,
        o.infinite ==> go_scan(tokens, i, o).infinite,
    decreases tokens.len() - i,
{
    if i < tokens.len() {
        let has_next = i + 1 < tokens.len();
        let after = if has_next { (i + 2) as nat } else { tokens.len() };
        let n64 = if has_next { u64_text(tokens[i + 1int].spec_bytes()) } else { None };
        let n32 = if has_next { i32_text(tokens[i + 1int].spec_bytes()) } else { None };
        let wv = match n64 { Some(v) => v, None => 0 };
        let mv = match n64 { Some(v) => v, None => 30 };
        let dv = match n32 { Some(v) => v, None => 64 };
        lemma_go_scan_keeps(tokens, after, GoOptions { wtime: n64, ..o });
        lemma_go_scan_keeps(tokens, after, GoOptions { btime: n64, ..o });
        lemma_go_scan_keeps(tokens, after, GoOptions { winc: wv, ..o });
        lemma_go_scan_keeps(tokens, after, GoOptions { binc: wv, ..o });
        lemma_go_scan_keeps(tokens, after, GoOptions { movestogo: mv, ..o });
        lemma_go_scan_keeps(tokens, after, GoOptions { depth: dv, ..o });
        lemma_go_scan_keeps(tokens, after, GoOptions { movetime: n64, ..o });
        lemma_go_scan_keeps(tokens, (i + 1) as nat, GoOptions { infinite: true, ..o });
        lemma_go_scan_keeps(tokens, (i + 1) as nat, o);
    }
}

/// What an option and its value at the head of a `go` command set: the option word
/// followed by its value, when no later token repeats the word, gives the options that the
/// later tokens alone give with that option replaced by the value read (a number that
/// does not read as one gives none for `wtime`, `btime`, `movetime`, and the defaults 0,
/// 0, 30, 64 for `winc`, `binc`, `movestogo`, `depth`); `infinite` alone sets the search
/// without end.
pub proof fn lemma_go_leading_option(tokens: Seq<&str>)
    requires
        tokens.len() >= 1,
    ensures
        ({
            let w = tokens[0].spec_bytes();
            let rest = tokens.subrange(2, tokens.len() as int);
            let r = go_scan(tokens, 0, go_defaults());
            let r2 = go_scan(rest, 0, go_defaults());
            let n64 = u64_text(tokens[1].spec_bytes());
            let n32 = i32_text(tokens[1].spec_bytes());
            &&& tokens.len() >= 2 && w == seq![119u8, 116, 105, 109, 101] && word_absent(rest, 0, w)
                ==> r == GoOptions { wtime: n64, ..r2 }
            &&& tokens.len() >= 2 && w == seq![98u8, 116, 105, 109, 101] && word_absent(rest, 0, w)
                ==> r == GoOptions { btime: n64, ..r2 }
            &&& tokens.len() >= 2 && w == seq![119u8, 105, 110, 99] && word_absent(rest, 0, w)
                ==> r == GoOptions { winc: match n64 { Some(v) => v, None => 0 }, ..r2 }
            &&& tokens.len() >= 2 && w == seq![98u8, 105, 110, 99] && word_absent(rest, 0, w)
                ==> r == GoOptions { binc: match n64 { Some(v) => v, None => 0 }, ..r2 }
            &&& tokens.len() >= 2 && w == seq![109u8, 111, 118, 101, 115, 116, 111, 103, 111] && word_absent(rest, 0, w)
                ==> r == GoOptions { movestogo: match n64 { Some(v) => v, None => 30 }, ..r2 }
            &&& tokens.len() >= 2 && w == seq![100u8, 101, 112, 116, 104] && word_absent(rest, 0, w)
                ==> r == GoOptions { depth: match n32 { Some(v) => v, None => 64 }, ..r2 }
            &&& tokens.len() >= 2 && w == seq![109u8, 111, 118, 101, 116, 105, 109, 101] && word_absent(rest, 0, w)
                ==> r == GoOptions { movetime: n64, ..r2 }
        }),
        ({
            let rest1 = tokens.subrange(1, tokens.len() as int);
            tokens[0].spec_bytes() == seq![105u8, 110, 102, 105, 110, 105, 116, 101]
                ==> go_scan(tokens, 0, go_defaults()) == GoOptions { infinite: true, ..go_scan(rest1, 0, go_defaults()) }
        }),
{
    let d = go_defaults();
    let w = tokens[0].spec_bytes();
    let rest1 = tokens.subrange(1, tokens.len() as int);
    if w == word_infinite() {
        let o = GoOptions { infinite: true, ..d };
        lemma_go_scan_shift(tokens, 1, 0, o);
        lemma_go_scan_fields(rest1, 0, o, d);
        lemma_go_scan_keeps(rest1, 0, o);
        assert(w != word_wtime() && w != word_btime() && w != word_winc() && w != word_binc());
        assert(w != word_movestogo() && w != word_depth() && w != word_movetime());
        assert(go_scan(tokens, 0, d) == go_scan(tokens, 1, o));
    }
    if tokens.len() >= 2 {
        let rest = tokens.subrange(2, tokens.len() as int);
        let n64 = u64_text(tokens[1].spec_bytes());
        let n32 = i32_text(tokens[1].spec_bytes());
        let o = if w == word_wtime() {
            GoOptions { wtime: n64, ..d }
        } else if w == word_btime() {
            GoOptions { btime: n64, ..d }
        } else if w == word_winc() {
            GoOptions { winc: match n64 { Some(v) => v, None => 0 }, ..d }
        } else if w == word_binc() {
            GoOptions { binc: match n64 { Some(v) => v, None => 0 }, ..d }
        } else if w == word_movestogo() {
            GoOptions { movestogo: match n64 { Some(v) => v, None => 30 }, ..d }
        } else if w == word_depth() {
            GoOptions { depth: match n32 { Some(v) => v, None => 64 }, ..d }
        } else {
            GoOptions { movetime: n64, ..d }
        };
        lemma_go_scan_shift(tokens, 2, 0, o);
        lemma_go_scan_fields(rest, 0, o, d);
        lemma_go_scan_keeps(rest, 0, o);
        assert(word_wtime() != word_btime() && word_wtime() != word_winc() && word_winc() != word_binc());
    }
}

/// Reads the options of a `go` command from the tokens that follow its keyword.
pub fn parse_go(tokens: &[&str]) -> (r: GoOptions)
    ensures
        r == go_scan(tokens@, 0, go_defaults()),
{
    let mut o = GoOptions { depth: 64, wtime: None, btime: None, winc: 0, binc: 0, movestogo: 30, movetime: None, infinite: false };
    let mut i: usize = 0;
    while i < tokens.len()
        invariant
            i <= tokens@.len(),
            go_scan(tokens@, i as nat, o) == go_scan(tokens@, 0, go_defaults()),
        decreases tokens@.len() - i,
    {
        let w = tokens[i].as_bytes();
        let has_next = i + 1 < tokens.len();
        let after = if has_next { i + 2 } else { tokens.len() };
        let n64 = if has_next { parse_u64(tokens[i + 1]) } else { None };
        let n32 = if has_next { parse_i32(tokens[i + 1]) } else { None };
        if word_is(w, &[119u8, 116, 105, 109, 101]) {
            o.wtime = n64;
            i = after;
        } else if word_is(w, &[98u8, 116, 105, 109, 101]) {
            o.btime = n64;
            i = after;
        } else if word_is(w, &[119u8, 105, 110, 99]) {
            o.winc = match n64 { Some(v) => v, None => 0 };
            i = after;
        } else if word_is(w, &[98u8, 105, 110, 99]) {
            o.binc = match n64 { Some(v) => v, None => 0 };
            i = after;
        } else if word_is(w, &[109u8, 111, 118, 101, 115, 116, 111, 103, 111]) {
            o.movestogo = match n64 { Some(v) => v, None => 30 };
            i = after;
        } else if word_is(w, &[100u8, 101, 112, 116, 104]) {
            o.depth = match n32 { Some(v) => v, None => 64 };
            i = after;
        } else if word_is(w, &[109u8, 111, 118, 101, 116, 105, 109, 101]) {
            o.movetime = n64;
            i = after;
        } else if word_is(w, &[105u8, 110, 102, 105, 110, 105, 116, 101]) {
            o.infinite = true;
            i = i + 1;
        } else {
            i = i + 1;
        }
    }
    o
}

pub open spec fn word_moves() -> Seq<u8> { seq![109u8, 111, 118, 101, 115] }
pub open spec fn word_startpos() -> Seq<u8> { seq![115u8, 116, 97, 114, 116, 112, 111, 115] }
pub open spec fn word_fen() -> Seq<u8> { seq![102u8, 101, 110] }

/// The index of the first `moves` among the tokens from `from` on, or the number of
/// tokens when there is none.
pub open spec fn moves_index(tokens: Seq<&str>, from: int) -> int
    decreases tokens.len() - from,
{
    if from < 0 || from >= tokens.len() {
        tokens.len() as int
    } else if tokens[from].spec_bytes() == word_moves() {
        from
    } else {
        moves_index(tokens, from + 1)
    }
}

/// Reads the tokens of a `position` command. The position is written by the tokens
/// before the first `moves` (all of them when there is none), the moves by those after
/// it. Gives whether the position is the start position (`startpos`) rather than a FEN
/// (`fen`, then the FEN's fields), and the index of `moves` (the number of tokens when
/// there is none); `None` when the position's tokens start with neither word.
pub fn position_parts(tokens: &[&str]) -> (r: Option<(bool, usize)>)
    ensures
        r == ({
            let split = moves_index(tokens@, 0);
            if split == 0 {
                None
            } else if tokens@[0].spec_bytes() == word_startpos() {
                Some((true, split as usize))
            } else if tokens@[0].spec_bytes() == word_fen() {
                Some((false, split as usize))
            } else {
                None
            }
        }),
{
    let mut split: usize = 0;
    while split < tokens.len()
        invariant
            split <= tokens@.len(),
            moves_index(tokens@, split as int) == moves_index(tokens@, 0),
        ensures
            split <= tokens@.len(),
            moves_index(tokens@, split as int) == moves_index(tokens@, 0),
            split == tokens@.len() || tokens@[split as int].spec_bytes() == word_moves(),
        decreases tokens@.len() - split,
    {
        if word_is(tokens[split].as_bytes(), &[109u8, 111, 118, 101, 115]) {
            break;
        }
        split += 1;
    }
    proof {
        assert(moves_index(tokens@, split as int) == split);
    }
    if split == 0 {
        return None;
    }
    let first = tokens[0].as_bytes();
    if word_is(first, &[115u8, 116, 97, 114, 116, 112, 111, 115]) {
        Some((true, split))
    } else if word_is(first, &[102u8, 101, 110]) {
        Some((false, split))
    } else {
        None
    }
}

} // verus!
