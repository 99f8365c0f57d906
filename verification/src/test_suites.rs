//! Standard algebraic notation: reading the moves of test positions and writing the
//! engine's answers.
use vstd::prelude::*;
use crate::board::Board;
use crate::defs::{Color, Piece, PieceType};
use vstd::string::*;
use crate::movegen::{Move, MoveList};
use crate::movegen::generate::{ready, listed, pseudo_legal, castle_moves, lemma_pseudo_legal_plain, lemma_pseudo_legal_unique, gen_key, in_generation_order, distinct_moves};
use crate::movegen::{lemma_move_squares, lemma_move_fields};
use crate::text::{all_ascii, ascii_chars, ascii_string, push_square, square_bytes};

verus! {

broadcast use vstd::string::axiom_spec_iter;

/// Whether a character has the Unicode `Uppercase` property.
pub uninterp spec fn unicode_uppercase(c: char) -> bool;

/// `char::is_uppercase`: the `Uppercase` property of the character, which among the ASCII
/// characters exactly the letters `A` to `Z` have.
#[verifier::external_body]
fn is_uppercase(c: char) -> (r: bool)
    ensures
        r == unicode_uppercase(c),
        (c as u32) < 128 ==> (r <==> (65 <= (c as u32) <= 90)),
{
    c.is_uppercase()
}

/// The characters that notation may carry and that say nothing of the move: check,
/// mate and capture marks.
pub open spec fn kept_char(c: char) -> bool {
    c != '+' && c != '#' && c != 'x'
}

/// The first character that is not a check, mate or capture mark.
pub open spec fn first_kept_char(s: Seq<char>) -> Option<char>
    decreases s.len(),
{
    if s.len() == 0 {
        None
    } else {
        match first_kept_char(s.drop_last()) {
            Some(c) => Some(c),
            None => if kept_char(s.last()) {
                Some(s.last())
            } else {
                None
            },
        }
    }
}

/// The first character of the notation that is not a check, mate or capture mark.
fn first_kept(san: &str) -> (r: Option<char>)
    ensures
        r == first_kept_char(san@),
{
    let mut first: Option<char> = None;
    for c in it: san.chars()
        invariant
            it.seq() == san@,
            first == first_kept_char(san@.take(it.index() as int)),
    {
        proof {
            assert(san@.take(it.index() + 1).drop_last() =~= san@.take(it.index() as int));
        }
        if first.is_none() && c != '+' && c != '#' && c != 'x' {
            first = Some(c);
        }
    }
    proof {
        assert(san@.take(san@.len() as int) =~= san@);
    }
    first
}

/// Bytes of the notation other than check, mate and capture marks.
pub open spec fn kept_byte(b: u8) -> bool {
    b != 43 && b != 35 && b != 120
}

/// The notation without its check, mate and capture marks.
pub open spec fn san_clean(b: Seq<u8>) -> Seq<u8>
    decreases b.len(),
{
    if b.len() == 0 {
        Seq::empty()
    } else if kept_byte(b.last()) {
        san_clean(b.drop_last()).push(b.last())
    } else {
        san_clean(b.drop_last())
    }
}

/// The index of the first `=`, or the length when there is none.
pub open spec fn first_eq(s: Seq<u8>) -> nat
    decreases s.len(),
{
    if s.len() == 0 {
        0
    } else {
        let k = first_eq(s.drop_last());
        if k < s.len() - 1 {
            k
        } else if s.last() == 61 {
            (s.len() - 1) as nat
        } else {
            s.len()
        }
    }
}

/// The part before the first `=`: piece, disambiguation and target square.
pub open spec fn san_target(c: Seq<u8>) -> Seq<u8> {
    c.take(first_eq(c) as int)
}

/// The first character after the first `=`, unless that part is empty.
pub open spec fn san_promo(c: Seq<u8>) -> Option<u8> {
    let k = first_eq(c) as int;
    if k + 1 < c.len() && c[k + 1] != 61 {
        Some(c[k + 1])
    } else {
        None
    }
}

/// The square named by a file letter and a rank digit.
pub open spec fn square_named(f: u8, r: u8) -> Option<nat> {
    if 97 <= f <= 104 && 49 <= r <= 56 {
        Some(((r - 49) * 8 + (f - 97)) as nat)
    } else {
        None
    }
}

/// The type of the moving piece: from an upper-case letter, else a pawn.
pub open spec fn san_piece_type(first: char, upper: bool) -> Option<PieceType> {
    if !upper {
        Some(PieceType::PAWN)
    } else if first == 'N' {
        Some(PieceType::KNIGHT)
    } else if first == 'B' {
        Some(PieceType::BISHOP)
    } else if first == 'R' {
        Some(PieceType::ROOK)
    } else if first == 'Q' {
        Some(PieceType::QUEEN)
    } else if first == 'K' {
        Some(PieceType::KING)
    } else {
        None
    }
}

/// The piece-type number a promotion letter asks for (either case), or 0.
pub open spec fn promo_type_index(p: u8) -> nat {
    if p == 110 || p == 78 {
        2
    } else if p == 98 || p == 66 {
        3
    } else if p == 114 || p == 82 {
        4
    } else if p == 113 || p == 81 {
        5
    } else {
        0
    }
}

/// A promotion letter asks for a promotion to a piece of that type; no letter, for none.
pub open spec fn promo_fits(promo: Option<u8>, promoted: nat) -> bool {
    match promo {
        Some(p) => promoted != 0 && promo_type_index(p) != 0
            && Piece::from_idx(promoted).ptype().idx() == promo_type_index(p),
        None => promoted == 0,
    }
}

/// A file letter names the origin's file, a rank digit its rank; other bytes say nothing.
pub open spec fn fits_origin(b: u8, from: nat) -> bool {
    &&& (97 <= b <= 104 ==> b == 97 + from % 8)
    &&& (49 <= b <= 56 ==> b == 49 + from / 8)
}

/// Every file letter and rank digit of the disambiguation names the origin's.
pub open spec fn disambiguation_fits(d: Seq<u8>, from: nat) -> bool {
    forall|i: int| 0 <= i < d.len() ==> fits_origin(#[trigger] d[i], from)
}

/// The text between the piece letter (if any) and the target square.
pub open spec fn san_disambiguation(t: Seq<u8>, upper: bool) -> Seq<u8> {
    if upper {
        t.subrange(1, t.len() - 2)
    } else {
        t.subrange(0, t.len() - 2)
    }
}

/// A move of a piece of type `pt` to `dest` that fits the promotion and disambiguation.
pub open spec fn names_piece_move(pos: Board, dest: nat, pt: PieceType, promo: Option<u8>, d: Seq<u8>, m: Move) -> bool {
    &&& m.to_sq() == dest
    &&& pos.pieces@[m.from_sq() as int].ptype() == pt
    &&& promo_fits(promo, m.promoted_idx())
    &&& disambiguation_fits(d, m.from_sq())
}

/// Whether the notation (its bytes, its first character that is not a mark, and whether
/// that character is upper case) describes the move.
pub open spec fn san_names(pos: Board, bytes: Seq<u8>, first: Option<char>, upper: bool, m: Move) -> bool {
    let c = san_clean(bytes);
    if c == seq![79u8, 45u8, 79u8] {
        m.castle_flag() && m.to_sq() > m.from_sq()
    } else if c == seq![79u8, 45u8, 79u8, 45u8, 79u8] {
        m.castle_flag() && m.to_sq() < m.from_sq()
    } else {
        let t = san_target(c);
        &&& t.len() >= 2
        &&& square_named(t[t.len() - 2], t[t.len() - 1]) matches Some(dest)
        &&& first matches Some(f)
        &&& san_piece_type(f, upper) matches Some(pt)
        &&& (upper ==> t.len() >= 3)
        &&& names_piece_move(pos, dest, pt, san_promo(c), san_disambiguation(t, upper), m)
    }
}

/// The notation can be cut before its target square: the byte there starts a character.
pub open spec fn san_slices(bytes: Seq<u8>) -> bool {
    let t = san_target(san_clean(bytes));
    t.len() >= 2 ==> !(128 <= t[t.len() - 2] < 192)
}

/// Whether the first character of the notation that is not a mark is upper case.
pub open spec fn san_upper(chars: Seq<char>) -> bool {
    match first_kept_char(chars) {
        Some(c) => unicode_uppercase(c),
        None => false,
    }
}

fn clean_bytes(bytes: &[u8]) -> (c: Vec<u8>)
    ensures
        c@ == san_clean(bytes@),
{
    let mut c: Vec<u8> = Vec::new();
    let mut i: usize = 0;
    while i < bytes.len()
        invariant
            i <= bytes@.len(),
            c@ == san_clean(bytes@.take(i as int)),
        decreases bytes@.len() - i,
    {
        proof {
            assert(bytes@.take(i + 1).drop_last() =~= bytes@.take(i as int));
        }
        let b = bytes[i];
        if b != 43 && b != 35 && b != 120 {
            c.push(b);
        }
        i += 1;
    }
    proof {
        assert(bytes@.take(bytes@.len() as int) =~= bytes@);
    }
    c
}

fn first_eq_index(c: &Vec<u8>) -> (k: usize)
    ensures
        k == first_eq(c@),
        k <= c@.len(),
        k < c@.len() ==> c@[k as int] == 61,
{
    let mut k: usize = 0;
    let mut i: usize = 0;
    while i < c.len()
        invariant
            i <= c@.len(),
            k <= i,
            k == first_eq(c@.take(i as int)),
            k < i ==> c@[k as int] == 61,
        decreases c@.len() - i,
    {
        proof {
            assert(c@.take(i + 1).drop_last() =~= c@.take(i as int));
        }
        if k == i && c[i] != 61 {
            k = i + 1;
        }
        i += 1;
    }
    proof {
        assert(c@.take(c@.len() as int) =~= c@);
    }
    k
}

fn promo_index_of(p: u8) -> (r: usize)
    ensures
        r == promo_type_index(p),
{
    if p == 110 || p == 78 {
        2
    } else if p == 98 || p == 66 {
        3
    } else if p == 114 || p == 82 {
        4
    } else if p == 113 || p == 81 {
        5
    } else {
        0
    }
}

fn disambiguation_matches(c: &Vec<u8>, lo: usize, hi: usize, from: usize) -> (r: bool)
    requires
        lo <= hi <= c@.len(),
        from < 64,
    ensures
        r == disambiguation_fits(c@.subrange(lo as int, hi as int), from as nat),
{
    let mut ok = true;
    let mut i: usize = lo;
    let file = 97 + (from % 8) as u8;
    let rank = 49 + (from / 8) as u8;
    while i < hi
        invariant
            lo <= i <= hi <= c@.len(),
            from < 64,
            file == 97 + from % 8,
            rank == 49 + from / 8,
            ok == (forall|j: int| lo <= j < i ==> fits_origin(#[trigger] c@[j], from as nat)),
        decreases hi - i,
    {
        let ch = c[i];
        if 97 <= ch && ch <= 104 {
            if ch != file {
                ok = false;
            }
        } else if 49 <= ch && ch <= 56 {
            if ch != rank {
                ok = false;
            }
        }
        proof {
            if !fits_origin(ch, from as nat) {
                assert(!fits_origin(c@[i as int], from as nat));
            }
        }
        i += 1;
    }
    proof {
        let d = c@.subrange(lo as int, hi as int);
        if ok {
            assert forall|j: int| 0 <= j < d.len() implies fits_origin(#[trigger] d[j], from as nat) by {
                assert(d[j] == c@[lo + j]);
            }
        } else {
            let j = choose|j: int| lo <= j < hi && !fits_origin(#[trigger] c@[j], from as nat);
            assert(d[j - lo] == c@[j]);
        }
    }
    ok
}

/// The first castling move of the list that goes toward the king side (`short`) or the
/// queen side.
fn find_castle(list: &MoveList, short: bool) -> (r: Option<Move>)
    requires
        list.wf(),
    ensures
        r matches Some(m) ==> listed(list.moves@, m) && m.castle_flag()
            && (if short { m.to_sq() > m.from_sq() } else { m.to_sq() < m.from_sq() }),
        r matches Some(m) ==> exists|j: int| 0 <= j < list.moves@.len() && #[trigger] list.moves@[j].mv == m
            && forall|j2: int| 0 <= j2 < j ==> !({
                let m2 = #[trigger] list.moves@[j2].mv;
                m2.castle_flag() && (if short { m2.to_sq() > m2.from_sq() } else { m2.to_sq() < m2.from_sq() })
            }),
        r is None ==> forall|j: int| 0 <= j < list.moves@.len() ==> !({
            let m = #[trigger] list.moves@[j].mv;
            m.castle_flag() && (if short { m.to_sq() > m.from_sq() } else { m.to_sq() < m.from_sq() })
        }),
{
    let mut i: usize = 0;
    while i < list.moves.len()
        invariant
            list.wf(),
            i <= list.moves@.len(),
            forall|j: int| 0 <= j < i ==> !({
                let m = #[trigger] list.moves@[j].mv;
                m.castle_flag() && (if short { m.to_sq() > m.from_sq() } else { m.to_sq() < m.from_sq() })
            }),
        decreases list.moves@.len() - i,
    {
        let m = list.moves[i].mv;
        if m.is_castling() && (if short { m.to_square() > m.from_square() } else { m.to_square() < m.from_square() }) {
            proof {
                assert(list.moves@[i as int].mv == m);
            }
            return Some(m);
        }
        i += 1;
    }
    None
}

/// The first move of the list that a piece of type `pt` makes to `dest` and that fits the
/// promotion letter and the disambiguation `c[lo..hi]`.
fn find_piece_move(
    position: &Board,
    list: &MoveList,
    dest: usize,
    pt: PieceType,
    promo: Option<u8>,
    c: &Vec<u8>,
    lo: usize,
    hi: usize,
) -> (r: Option<Move>)
    requires
        list.wf(),
        lo <= hi <= c@.len(),
    ensures
        r matches Some(m) ==> listed(list.moves@, m)
            && names_piece_move(*position, dest as nat, pt, promo, c@.subrange(lo as int, hi as int), m),
        r matches Some(m) ==> exists|j: int| 0 <= j < list.moves@.len() && #[trigger] list.moves@[j].mv == m
            && forall|j2: int| 0 <= j2 < j ==> !#[trigger] names_piece_move(*position, dest as nat, pt, promo,
                c@.subrange(lo as int, hi as int), list.moves@[j2].mv),
        r is None ==> forall|j: int| 0 <= j < list.moves@.len() ==> !#[trigger] names_piece_move(
            *position, dest as nat, pt, promo, c@.subrange(lo as int, hi as int), list.moves@[j].mv),
{
    let ghost d = c@.subrange(lo as int, hi as int);
    let mut i: usize = 0;
    while i < list.moves.len()
        invariant
            list.wf(),
            i <= list.moves@.len(),
            lo <= hi <= c@.len(),
            d == c@.subrange(lo as int, hi as int),
            forall|j: int| 0 <= j < i ==> !#[trigger] names_piece_move(*position, dest as nat, pt, promo, d, list.moves@[j].mv),
        decreases list.moves@.len() - i,
    {
        let m = list.moves[i].mv;
        let from = m.from_square();
        let promoted = m.promoted();
        let promo_ok = match promo {
            Some(p) => {
                let want = promo_index_of(p);
                promoted != 0 && want != 0 && Piece::from_index(promoted).piece_type().index() == want
            },
            None => promoted == 0,
        };
        if m.to_square() == dest && position.pieces[from].piece_type() == pt && promo_ok
            && disambiguation_matches(c, lo, hi, from) {
            proof {
                assert(list.moves@[i as int].mv == m);
            }
            return Some(m);
        }
        proof {
            assert(list.moves@[i as int].mv == m);
        }
        i += 1;
    }
    None
}

/// The four bytes at `i` of `t` are `w`.
pub open spec fn occurs_at(t: Seq<u8>, w: Seq<u8>, i: int) -> bool {
    0 <= i && i + w.len() <= t.len() && t.subrange(i, i + w.len()) == w
}

/// Where the moves after the four-byte `marker` lie in an EPD line: from the end of the
/// marker's first occurrence to the next `;`, or to the end of the line; `None` when the
/// marker does not occur.
pub fn epd_section(epd: &str, marker: &str) -> (r: Option<(usize, usize)>)
    requires
        marker.spec_bytes().len() == 4,
    ensures
        r is None <==> forall|i: int| !#[trigger] occurs_at(epd.spec_bytes(), marker.spec_bytes(), i),
        r matches Some((s, e)) ==> {
            let t = epd.spec_bytes();
            &&& occurs_at(t, marker.spec_bytes(), s - 4)
            &&& forall|j: int| 0 <= j < s - 4 ==> !#[trigger] occurs_at(t, marker.spec_bytes(), j)
            &&& s <= e <= t.len()
            &&& (e < t.len() ==> t[e as int] == 59)
            &&& forall|k: int| s <= k < e ==> #[trigger] t[k] != 59
        },
{
    let t = epd.as_bytes();
    let w = marker.as_bytes();
    let mut i: usize = 0;
    while t.len() >= 4 && i <= t.len() - 4
        invariant
            i <= t@.len(),
            w@.len() == 4,
            t@ == epd.spec_bytes(),
            w@ == marker.spec_bytes(),
            forall|j: int| 0 <= j < i ==> !#[trigger] occurs_at(t@, w@, j),
        decreases t@.len() - i,
    {
        if t[i] == w[0] && t[i + 1] == w[1] && t[i + 2] == w[2] && t[i + 3] == w[3] {
            proof {
                assert(t@.subrange(i as int, i + 4) =~= w@);
                assert(occurs_at(epd.spec_bytes(), marker.spec_bytes(), i as int));
            }
            let s = i + 4;
            let e = semicolon_from(t, s);
            return Some((s, e));
        }
        proof {
            if occurs_at(t@, w@, i as int) {
                assert(t@.subrange(i as int, i + 4)[0] == t@[i as int]);
                assert(t@.subrange(i as int, i + 4)[1] == t@[i + 1]);
                assert(t@.subrange(i as int, i + 4)[2] == t@[i + 2]);
                assert(t@.subrange(i as int, i + 4)[3] == t@[i + 3]);
            }
        }
        i += 1;
    }
    proof {
        assert forall|j: int| !#[trigger] occurs_at(t@, w@, j) by {
            if j >= i {
                assert(j + 4 > t@.len());
            }
        }
    }
    None
}

/// The first `;` of `t` from `s` on, or the end of `t`.
fn semicolon_from(t: &[u8], s: usize) -> (e: usize)
    requires
        s <= t@.len(),
    ensures
        s <= e <= t@.len(),
        e < t@.len() ==> t@[e as int] == 59,
        forall|k: int| s <= k < e ==> #[trigger] t@[k] != 59,
{
    let mut e = s;
    while e < t.len() && t[e] != 59
        invariant
            s <= e <= t@.len(),
            forall|k: int| s <= k < e ==> #[trigger] t@[k] != 59,
        decreases t@.len() - e,
    {
        e += 1;
    }
    e
}

/// In a list in generation order, the first entry that has a property comes no later in
/// that order than any listed move that has it.
proof fn lemma_first_in_order(pos: Board, moves: Seq<crate::movegen::ScoredMove>, p: spec_fn(Move) -> bool, j: int, m2: Move)
    requires
        in_generation_order(pos, moves),
        0 <= j < moves.len(),
        forall|j2: int| 0 <= j2 < j ==> !p(#[trigger] moves[j2].mv),
        listed(moves, m2),
        p(m2),
    ensures
        gen_key(pos, moves[j].mv) <= gen_key(pos, m2),
{
    let j2 = choose|j2: int| 0 <= j2 < moves.len() && #[trigger] moves[j2].mv == m2;
    if j2 < j {
        assert(!p(moves[j2].mv));
    } else if j2 > j {
        assert(gen_key(pos, moves[j].mv) <= gen_key(pos, moves[j2].mv));
    }
}

/// The move that the notation names, given whether its first character that is not a
/// mark is upper case: the first generated move that fits, or `None`.
#[verifier::spinoff_prover]
#[verifier::rlimit(30)]
pub fn find_san_move(position: &Board, san: &str, upper: bool) -> (r: Option<Move>)
    requires
        ready(position),
    ensures
        r matches Some(m) ==> pseudo_legal(*position, false, m)
            && san_names(*position, san.spec_bytes(), first_kept_char(san@), upper, m),
        r is None ==> forall|m: Move| #[trigger] pseudo_legal(*position, false, m)
            ==> !san_names(*position, san.spec_bytes(), first_kept_char(san@), upper, m),
        r matches Some(m) ==> forall|m2: Move| #[trigger] pseudo_legal(*position, false, m2)
            && san_names(*position, san.spec_bytes(), first_kept_char(san@), upper, m2)
            ==> gen_key(*position, m) <= gen_key(*position, m2),
{
    let ghost bytes = san.spec_bytes();
    let ghost first_char = first_kept_char(san@);
    let mut list = MoveList::new();
    list.generate_all_moves(position);
    let c = clean_bytes(san.as_bytes());
    let short_castle = c.len() == 3 && c[0] == 79 && c[1] == 45 && c[2] == 79;
    let long_castle = c.len() == 5 && c[0] == 79 && c[1] == 45 && c[2] == 79 && c[3] == 45 && c[4] == 79;
    proof {
        let short_text = seq![79u8, 45u8, 79u8];
        let long_text = seq![79u8, 45u8, 79u8, 45u8, 79u8];
        if short_castle {
            assert(c@ =~= short_text);
        }
        if c@ == short_text {
            assert(c@.len() == 3 && c@[0] == 79 && c@[1] == 45 && c@[2] == 79);
        }
        if long_castle {
            assert(c@ =~= long_text);
        }
        if c@ == long_text {
            assert(c@.len() == 5 && c@[0] == 79 && c@[1] == 45 && c@[2] == 79 && c@[3] == 45 && c@[4] == 79);
        }
        assert(short_castle == (c@ == short_text));
        assert(long_castle == (c@ == long_text));
    }
    if short_castle || long_castle {
        let r = find_castle(&list, short_castle);
        proof {
            if r is Some {
                let m = r->0;
                let p = |mm: Move| mm.castle_flag() && (if short_castle { mm.to_sq() > mm.from_sq() } else { mm.to_sq() < mm.from_sq() });
                let j = choose|j: int| 0 <= j < list.moves@.len() && #[trigger] list.moves@[j].mv == m
                    && forall|j2: int| 0 <= j2 < j ==> !({
                        let m2 = #[trigger] list.moves@[j2].mv;
                        m2.castle_flag() && (if short_castle { m2.to_sq() > m2.from_sq() } else { m2.to_sq() < m2.from_sq() })
                    });
                assert forall|m2: Move| #[trigger] pseudo_legal(*position, false, m2)
                    && san_names(*position, bytes, first_char, upper, m2) implies gen_key(*position, m) <= gen_key(*position, m2) by {
                    assert(listed(list.moves@, m2));
                    assert forall|j2: int| 0 <= j2 < j implies !p(#[trigger] list.moves@[j2].mv) by {}
                    lemma_first_in_order(*position, list.moves@, p, j, m2);
                }
            }
            if r is None {
                assert forall|m: Move| #[trigger] pseudo_legal(*position, false, m)
                    implies !san_names(*position, bytes, first_char, upper, m) by {
                    assert(listed(list.moves@, m));
                    let j = choose|j: int| 0 <= j < list.moves@.len() && #[trigger] list.moves@[j].mv == m;
                    assert(list.moves@[j].mv == m);
                }
            }
        }
        return r;
    }
    let k = first_eq_index(&c);
    let promo: Option<u8> = if c.len() - k > 1 && c[k + 1] != 61 {
        Some(c[k + 1])
    } else {
        None
    };
    proof {
        assert(promo == san_promo(c@));
        assert(san_target(c@).len() == k);
    }
    if k < 2 {
        return None;
    }
    let f = c[k - 2];
    let r = c[k - 1];
    proof {
        assert(san_target(c@)[k - 2] == f);
        assert(san_target(c@)[k - 1] == r);
    }
    if !(97 <= f && f <= 104 && 49 <= r && r <= 56) {
        return None;
    }
    let dest = ((r - 49) * 8 + (f - 97)) as usize;
    let first = match first_kept(san) {
        Some(ch) => ch,
        None => {
            return None;
        },
    };
    let pt = if !upper {
        PieceType::PAWN
    } else if first == 'N' {
        PieceType::KNIGHT
    } else if first == 'B' {
        PieceType::BISHOP
    } else if first == 'R' {
        PieceType::ROOK
    } else if first == 'Q' {
        PieceType::QUEEN
    } else if first == 'K' {
        PieceType::KING
    } else {
        return None;
    };
    if upper && k < 3 {
        return None;
    }
    let lo: usize = if upper { 1 } else { 0 };
    let found = find_piece_move(position, &list, dest, pt, promo, &c, lo, k - 2);
    proof {
        let t = san_target(c@);
        assert(t.subrange(lo as int, t.len() - 2) =~= c@.subrange(lo as int, k - 2));
        assert(san_disambiguation(t, upper) == c@.subrange(lo as int, k - 2));
        assert(square_named(t[t.len() - 2], t[t.len() - 1]) == Some(dest as nat));
        assert(san_piece_type(first, upper) == Some(pt));
        assert forall|m: Move| san_names(*position, bytes, first_char, upper, m)
            == names_piece_move(*position, dest as nat, pt, promo, c@.subrange(lo as int, k - 2), m) by {}
        if found is Some {
            let m = found->0;
            let d = c@.subrange(lo as int, k - 2);
            let p = |mm: Move| names_piece_move(*position, dest as nat, pt, promo, d, mm);
            let j = choose|j: int| 0 <= j < list.moves@.len() && #[trigger] list.moves@[j].mv == m
                && forall|j2: int| 0 <= j2 < j ==> !#[trigger] names_piece_move(*position, dest as nat, pt, promo,
                    c@.subrange(lo as int, (k - 2) as int), list.moves@[j2].mv);
            assert forall|m2: Move| #[trigger] pseudo_legal(*position, false, m2)
                && san_names(*position, bytes, first_char, upper, m2) implies gen_key(*position, m) <= gen_key(*position, m2) by {
                assert(listed(list.moves@, m2));
                assert forall|j2: int| 0 <= j2 < j implies !p(#[trigger] list.moves@[j2].mv) by {}
                lemma_first_in_order(*position, list.moves@, p, j, m2);
            }
        }
        if found is None {
            assert forall|m: Move| #[trigger] pseudo_legal(*position, false, m)
                implies !san_names(*position, bytes, first_char, upper, m) by {
                assert(listed(list.moves@, m));
                let j = choose|j: int| 0 <= j < list.moves@.len() && #[trigger] list.moves@[j].mv == m;
                assert(list.moves@[j].mv == m);
            }
        }
    }
    found
}

/// Whether the notation can be cut before its target square, as `parse_san` needs.
pub fn san_can_be_read(san: &str) -> (r: bool)
    ensures
        r == san_slices(san.spec_bytes()),
{
    let c = clean_bytes(san.as_bytes());
    let k = first_eq_index(&c);
    proof {
        assert(san_target(c@).len() == k);
    }
    if k < 2 {
        return true;
    }
    let b = c[k - 2];
    proof {
        assert(san_target(c@)[k - 2] == b);
    }
    !(128 <= b && b < 192)
}

/// Reads a move in standard algebraic notation (check, mate and capture marks ignored)
/// and gives the first generated move it names (none that it names comes earlier in
/// generation order): `O-O` and `O-O-O` name castling moves;
/// otherwise the target square is the last two characters before any `=`, an upper-case
/// first character names the piece, the characters between name the origin's file or
/// rank, and the character after `=` the promotion.
pub fn parse_san(position: &Board, san: &str) -> (r: Option<Move>)
    requires
        ready(position),
        san_slices(san.spec_bytes()),
    ensures
        r matches Some(m) ==> pseudo_legal(*position, false, m)
            && san_names(*position, san.spec_bytes(), first_kept_char(san@), san_upper(san@), m),
        r is None ==> forall|m: Move| #[trigger] pseudo_legal(*position, false, m)
            ==> !san_names(*position, san.spec_bytes(), first_kept_char(san@), san_upper(san@), m),
        r matches Some(m) ==> forall|m2: Move| #[trigger] pseudo_legal(*position, false, m2)
            && san_names(*position, san.spec_bytes(), first_kept_char(san@), san_upper(san@), m2)
            ==> gen_key(*position, m) <= gen_key(*position, m2),
{
    let upper = match first_kept(san) {
        Some(c) => is_uppercase(c),
        None => false,
    };
    find_san_move(position, san, upper)
}


/// The letter that opens the notation of a piece move; nothing for a pawn, `?` for a
/// piece that has no letter.
pub open spec fn type_letter(pt: PieceType) -> Seq<u8> {
    match pt {
        PieceType::PAWN => Seq::empty(),
        PieceType::KNIGHT => seq![78u8],
        PieceType::BISHOP => seq![66u8],
        PieceType::ROOK => seq![82u8],
        PieceType::QUEEN => seq![81u8],
        PieceType::KING => seq![75u8],
        _ => seq![63u8],
    }
}

/// Notation names a piece by its letter in FEN, the white piece's (upper case): the
/// letter written before a piece move is that letter, and reading notation takes that
/// letter, and only it, back to the piece's type. A pawn move has no letter.
pub proof fn lemma_san_letters_are_fen_letters(pt: PieceType, c: char)
    requires
        pt == PieceType::KNIGHT || pt == PieceType::BISHOP || pt == PieceType::ROOK || pt == PieceType::QUEEN
            || pt == PieceType::KING,
    ensures
        type_letter(pt) == seq![crate::fen::piece_letter(Piece::of(pt, Color::WHITE))],
        crate::fen::char_piece(type_letter(pt)[0]) == Piece::of(pt, Color::WHITE),
        (san_piece_type(c, true) == Some(pt)) == (c as u32 == crate::fen::piece_letter(Piece::of(pt, Color::WHITE)) as u32),
        type_letter(PieceType::PAWN).len() == 0,
        san_piece_type(c, false) == Some(PieceType::PAWN),
{
}

/// The letter written after `=` for a promotion: that of the promoted piece's type.
pub open spec fn san_promo_letter(promoted: nat) -> u8 {
    match Piece::from_idx(promoted).ptype() {
        PieceType::KNIGHT => 78,
        PieceType::BISHOP => 66,
        PieceType::ROOK => 82,
        PieceType::QUEEN => 81,
        _ => 63,
    }
}

fn promo_letter(promoted: usize) -> (r: u8)
    ensures
        r == san_promo_letter(promoted as nat),
{
    match Piece::from_index(promoted).piece_type() {
        PieceType::KNIGHT => 78,
        PieceType::BISHOP => 66,
        PieceType::ROOK => 82,
        PieceType::QUEEN => 81,
        _ => 63,
    }
}

/// Another move of a piece of the same type to the same square.
pub open spec fn san_rival(pos: Board, mv: Move, m: Move) -> bool {
    &&& m.to_sq() == mv.to_sq()
    &&& m.from_sq() != mv.from_sq()
    &&& pos.pieces@[m.from_sq() as int].ptype() == pos.pieces@[mv.from_sq() as int].ptype()
}

/// A pseudo-legal rival stands on the same file: the origin rank must be written.
pub open spec fn san_needs_rank(pos: Board, mv: Move) -> bool {
    exists|m: Move| #[trigger] pseudo_legal(pos, false, m) && san_rival(pos, mv, m) && m.from_sq() % 8 == mv.from_sq() % 8
}

/// A pseudo-legal rival stands on another file, or a pawn captures: the origin file must
/// be written.
pub open spec fn san_needs_file(pos: Board, mv: Move) -> bool {
    ||| exists|m: Move| #[trigger] pseudo_legal(pos, false, m) && san_rival(pos, mv, m) && m.from_sq() % 8 != mv.from_sq() % 8
    ||| pos.pieces@[mv.from_sq() as int].ptype() == PieceType::PAWN && mv.captured_idx() != 0
}

/// The notation of a non-castling move, given which parts of its origin are written.
pub open spec fn san_piece_move(pt: PieceType, mv: Move, with_file: bool, with_rank: bool) -> Seq<u8> {
    type_letter(pt)
        + (if with_file { seq![(97 + mv.from_sq() % 8) as u8] } else { Seq::empty() })
        + (if with_rank { seq![(49 + mv.from_sq() / 8) as u8] } else { Seq::empty() })
        + (if mv.captured_idx() != 0 { seq![120u8] } else { Seq::empty() })
        + square_bytes(mv.to_sq() as int)
        + (if mv.promoted_idx() != 0 { seq![61u8, san_promo_letter(mv.promoted_idx())] } else { Seq::empty() })
}

/// The notation of a move in a position.
pub open spec fn san_bytes(pos: Board, mv: Move) -> Seq<u8> {
    if mv.castle_flag() {
        if mv.to_sq() > mv.from_sq() {
            seq![79u8, 45u8, 79u8]
        } else {
            seq![79u8, 45u8, 79u8, 45u8, 79u8]
        }
    } else {
        san_piece_move(pos.pieces@[mv.from_sq() as int].ptype(), mv, san_needs_file(pos, mv), san_needs_rank(pos, mv))
    }
}

fn push_type_letter(out: &mut Vec<u8>, pt: PieceType)
    ensures
        final(out)@ == old(out)@ + type_letter(pt),
{
    match pt {
        PieceType::PAWN => {},
        PieceType::KNIGHT => out.push(78),
        PieceType::BISHOP => out.push(66),
        PieceType::ROOK => out.push(82),
        PieceType::QUEEN => out.push(81),
        PieceType::KING => out.push(75),
        _ => out.push(63),
    }
    proof {
        assert(out@ =~= old(out)@ + type_letter(pt));
    }
}

/// Writes the notation of a non-castling move.
fn piece_move_text(pt: PieceType, mv: Move, with_file: bool, with_rank: bool) -> (out: Vec<u8>)
    ensures
        out@ == san_piece_move(pt, mv, with_file, with_rank),
        all_ascii(out@),
{
    let mut out: Vec<u8> = Vec::new();
    push_type_letter(&mut out, pt);
    let ghost lettered = out@;
    let from = mv.from_square();
    if with_file {
        out.push(97 + (from % 8) as u8);
    }
    if with_rank {
        out.push(49 + (from / 8) as u8);
    }
    if mv.captured() != 0 {
        out.push(120);
    }
    let ghost before_target = out@;
    push_square(&mut out, mv.to_square());
    let ghost after_target = out@;
    let promoted = mv.promoted();
    if promoted != 0 {
        out.push(61);
        out.push(promo_letter(promoted));
    }
    proof {
        assert(before_target =~= lettered
            + (if with_file { seq![(97 + mv.from_sq() % 8) as u8] } else { Seq::empty() })
            + (if with_rank { seq![(49 + mv.from_sq() / 8) as u8] } else { Seq::empty() })
            + (if mv.captured_idx() != 0 { seq![120u8] } else { Seq::empty() }));
        assert(out@ =~= after_target
            + (if mv.promoted_idx() != 0 { seq![61u8, san_promo_letter(mv.promoted_idx())] } else { Seq::empty() }));
        assert(out@ =~= san_piece_move(pt, mv, with_file, with_rank));
    }
    out
}

/// Whether another listed move of the same piece type reaches the same square from the
/// same file, and from another file.
fn find_rivals(position: &Board, list: &MoveList, mv: Move) -> (r: (bool, bool))
    requires
        list.wf(),
        forall|m: Move| #[trigger] listed(list.moves@, m) == pseudo_legal(*position, false, m),
    ensures
        r.0 == san_needs_rank(*position, mv),
        r.1 == (exists|m: Move| #[trigger] pseudo_legal(*position, false, m) && san_rival(*position, mv, m)
            && m.from_sq() % 8 != mv.from_sq() % 8),
{
    let from = mv.from_square();
    let to = mv.to_square();
    let piece_type = position.pieces[from].piece_type();
    let mut same_file = false;
    let mut other_file = false;
    let mut i: usize = 0;
    while i < list.moves.len()
        invariant
            list.wf(),
            i <= list.moves.len(),
            from == mv.from_sq(),
            to == mv.to_sq(),
            piece_type == position.pieces@[from as int].ptype(),
            same_file == exists|j: int| 0 <= j < i && #[trigger] san_rival(*position, mv, list.moves@[j].mv)
                && list.moves@[j].mv.from_sq() % 8 == from % 8,
            other_file == exists|j: int| 0 <= j < i && #[trigger] san_rival(*position, mv, list.moves@[j].mv)
                && list.moves@[j].mv.from_sq() % 8 != from % 8,
        decreases list.moves.len() - i,
    {
        let m = list.moves[i].mv;
        let m_from = m.from_square();
        if m.to_square() == to && m_from != from && position.pieces[m_from].piece_type() == piece_type {
            if m_from % 8 == from % 8 {
                same_file = true;
            } else {
                other_file = true;
            }
        }
        proof {
            assert(san_rival(*position, mv, list.moves@[i as int].mv) == (m.to_sq() == to && m_from != from
                && position.pieces@[m_from as int].ptype() == piece_type));
        }
        i += 1;
    }
    proof {
        if same_file {
            let j = choose|j: int| 0 <= j < list.moves.len() && #[trigger] san_rival(*position, mv, list.moves@[j].mv)
                && list.moves@[j].mv.from_sq() % 8 == from % 8;
            assert(listed(list.moves@, list.moves@[j].mv));
            assert(pseudo_legal(*position, false, list.moves@[j].mv));
        }
        if san_needs_rank(*position, mv) {
            let m = choose|m: Move| #[trigger] pseudo_legal(*position, false, m) && san_rival(*position, mv, m)
                && m.from_sq() % 8 == mv.from_sq() % 8;
            assert(listed(list.moves@, m));
            let j = choose|j: int| 0 <= j < list.moves@.len() && #[trigger] list.moves@[j].mv == m;
            assert(san_rival(*position, mv, list.moves@[j].mv));
        }
        if other_file {
            let j = choose|j: int| 0 <= j < list.moves.len() && #[trigger] san_rival(*position, mv, list.moves@[j].mv)
                && list.moves@[j].mv.from_sq() % 8 != from % 8;
            assert(listed(list.moves@, list.moves@[j].mv));
            assert(pseudo_legal(*position, false, list.moves@[j].mv));
        }
        if exists|m: Move| #[trigger] pseudo_legal(*position, false, m) && san_rival(*position, mv, m)
            && m.from_sq() % 8 != mv.from_sq() % 8 {
            let m = choose|m: Move| #[trigger] pseudo_legal(*position, false, m) && san_rival(*position, mv, m)
                && m.from_sq() % 8 != mv.from_sq() % 8;
            assert(listed(list.moves@, m));
            let j = choose|j: int| 0 <= j < list.moves@.len() && #[trigger] list.moves@[j].mv == m;
            assert(san_rival(*position, mv, list.moves@[j].mv));
        }
    }
    (same_file, other_file)
}

/// Whether a rival of the move stands on its file, and on another file.
fn rivals(position: &Board, mv: Move) -> (r: (bool, bool))
    requires
        ready(position),
    ensures
        r.0 == san_needs_rank(*position, mv),
        r.1 == (exists|m: Move| #[trigger] pseudo_legal(*position, false, m) && san_rival(*position, mv, m)
            && m.from_sq() % 8 != mv.from_sq() % 8),
{
    let mut list = MoveList::new();
    list.generate_all_moves(position);
    find_rivals(position, &list, mv)
}

/// The move in standard algebraic notation: castling as `O-O` or `O-O-O`, else the
/// piece letter, the origin file and rank where another piece of the type could go to
/// the same square (the file always for a pawn capture), `x` for a capture, the target
/// square, and `=` with a letter for a promotion.
pub fn move_to_san(position: &Board, mv: Move) -> (san: String)
    requires
        ready(position),
    ensures
        san@ == ascii_chars(san_bytes(*position, mv)),
{
    if mv.is_castling() {
        let mut out: Vec<u8> = Vec::new();
        out.push(79);
        out.push(45);
        out.push(79);
        if mv.to_square() <= mv.from_square() {
            out.push(45);
            out.push(79);
        }
        proof {
            assert(out@ =~= san_bytes(*position, mv));
            assert(all_ascii(out@));
        }
        return ascii_string(out);
    }
    let from = mv.from_square();
    let piece_type = position.pieces[from].piece_type();
    let (needs_rank, rival_other_file) = rivals(position, mv);
    let needs_file = rival_other_file || (piece_type == PieceType::PAWN && mv.captured() != 0);
    let text = piece_move_text(piece_type, mv, needs_file, needs_rank);
    ascii_string(text)
}

/// Removing the marks from two pieces of text removes them from each.
proof fn lemma_clean_concat(a: Seq<u8>, b: Seq<u8>)
    ensures
        san_clean(a + b) == san_clean(a) + san_clean(b),
    decreases b.len(),
{
    if b.len() == 0 {
        assert(a + b =~= a);
        assert(san_clean(a) + san_clean(b) =~= san_clean(a));
    } else {
        let ab = a + b;
        assert(ab.drop_last() =~= a + b.drop_last());
        assert(ab.last() == b.last());
        lemma_clean_concat(a, b.drop_last());
        if kept_byte(b.last()) {
            assert(san_clean(a) + san_clean(b.drop_last()).push(b.last()) =~= (san_clean(a) + san_clean(b.drop_last())).push(b.last()));
        }
    }
}

/// Text without marks is left as it is.
proof fn lemma_clean_kept(s: Seq<u8>)
    requires
        forall|i: int| 0 <= i < s.len() ==> #[trigger] kept_byte(s[i]),
    ensures
        san_clean(s) == s,
    decreases s.len(),
{
    if s.len() > 0 {
        assert forall|i: int| 0 <= i < s.drop_last().len() implies #[trigger] kept_byte(s.drop_last()[i]) by {
            assert(kept_byte(s[i]));
        }
        lemma_clean_kept(s.drop_last());
        assert(s.drop_last().push(s.last()) =~= s);
        assert(kept_byte(s[s.len() - 1]));
    }
}

/// Text without `=` has its first `=` at its end.
proof fn lemma_first_eq_none(s: Seq<u8>)
    requires
        forall|i: int| 0 <= i < s.len() ==> #[trigger] s[i] != 61,
    ensures
        first_eq(s) == s.len(),
    decreases s.len(),
{
    if s.len() > 0 {
        assert forall|i: int| 0 <= i < s.drop_last().len() implies #[trigger] s.drop_last()[i] != 61 by {
            assert(s[i] != 61);
        }
        lemma_first_eq_none(s.drop_last());
        assert(s[s.len() - 1] != 61);
    }
}

/// Text that opens with a character other than a mark has that character first.
proof fn lemma_first_kept_head(s: Seq<char>)
    requires
        s.len() > 0,
        kept_char(s[0]),
    ensures
        first_kept_char(s) == Some(s[0]),
    decreases s.len(),
{
    if s.len() > 1 {
        assert(s.drop_last()[0] == s[0]);
        lemma_first_kept_head(s.drop_last());
    } else {
        assert(s.drop_last() =~= Seq::<char>::empty());
        assert(first_kept_char(s.drop_last()) is None);
        assert(s.last() == s[0]);
    }
}

/// Reading back what `move_to_san` writes for a pseudo-legal castle names that castle
/// and no other pseudo-legal move.
pub proof fn lemma_san_round_trip_castle(pos: Board, mv: Move, m: Move, first: Option<char>, upper: bool)
    requires
        ready(&pos),
        pseudo_legal(pos, false, mv),
        mv.castle_flag(),
        pseudo_legal(pos, false, m),
    ensures
        san_names(pos, san_bytes(pos, mv), first, upper, m) <==> m == mv,
{
    let b = san_bytes(pos, mv);
    lemma_clean_kept(b);
    lemma_pseudo_legal_plain(pos, mv);
    lemma_pseudo_legal_plain(pos, m);
    lemma_move_fields(4, 6, 0, 4, 0);
    lemma_move_fields(4, 2, 0, 4, 0);
    lemma_move_fields(60, 62, 0, 4, 0);
    lemma_move_fields(60, 58, 0, 4, 0);
    if mv.to_sq() > mv.from_sq() {
        assert(b =~= seq![79u8, 45u8, 79u8]);
    } else {
        assert(b =~= seq![79u8, 45u8, 79u8, 45u8, 79u8]);
        assert(b != seq![79u8, 45u8, 79u8]);
    }
}

/// The origin part of the notation of a non-castling move: its file and its rank, each
/// where it must be written.
pub open spec fn san_origin(pos: Board, mv: Move) -> Seq<u8> {
    (if san_needs_file(pos, mv) { seq![(97 + mv.from_sq() % 8) as u8] } else { Seq::<u8>::empty() })
        + (if san_needs_rank(pos, mv) { seq![(49 + mv.from_sq() / 8) as u8] } else { Seq::<u8>::empty() })
}

/// Without its marks, the notation of a non-castling move without promotion is the
/// piece letter, the origin part and the target square; it has no `=`.
proof fn lemma_san_clean_shape(pos: Board, mv: Move)
    requires
        ready(&pos),
        pseudo_legal(pos, false, mv),
        !mv.castle_flag(),
        mv.promoted_idx() == 0,
    ensures
        san_clean(san_bytes(pos, mv)) == type_letter(pos.pieces@[mv.from_sq() as int].ptype()) + san_origin(pos, mv)
            + square_bytes(mv.to_sq() as int),
        san_bytes(pos, mv).len() > 0,
        kept_byte(san_bytes(pos, mv)[0]),
{
    lemma_pseudo_legal_plain(pos, mv);
    lemma_move_squares(mv);
    let f = mv.from_sq() as int;
    let to = mv.to_sq() as int;
    let pt = pos.pieces@[f].ptype();
    let l = type_letter(pt);
    let o = san_origin(pos, mv);
    let xb = if mv.captured_idx() != 0 { seq![120u8] } else { Seq::<u8>::empty() };
    let sb = square_bytes(to);
    let b = san_bytes(pos, mv);
    assert(b =~= l + o + xb + sb);
    let pre = l + o;
    assert forall|i: int| 0 <= i < pre.len() implies #[trigger] kept_byte(pre[i]) by {}
    assert forall|i: int| 0 <= i < sb.len() implies #[trigger] kept_byte(sb[i]) by {}
    lemma_clean_kept(pre);
    lemma_clean_kept(sb);
    lemma_clean_concat(pre, xb);
    lemma_clean_concat(pre + xb, sb);
    assert(san_clean(Seq::<u8>::empty()) =~= Seq::<u8>::empty());
    if mv.captured_idx() != 0 {
        assert(xb.drop_last() =~= Seq::<u8>::empty());
    }
    assert(san_clean(xb) =~= Seq::<u8>::empty());
    assert(pre + xb + sb =~= b);
    assert(san_clean(b) =~= pre + sb);
    // A pawn capture writes its origin file, so the capture mark never comes first.
    assert(kept_byte(b[0]));
}

/// The notation of a non-castling move without promotion names exactly the moves of a
/// piece of its type to its target whose origin fits its origin part.
proof fn lemma_san_reads_as(pos: Board, mv: Move, m: Move)
    requires
        ready(&pos),
        pseudo_legal(pos, false, mv),
        !mv.castle_flag(),
        mv.promoted_idx() == 0,
    ensures
        san_names(pos, san_bytes(pos, mv), first_kept_char(ascii_chars(san_bytes(pos, mv))),
            pos.pieces@[mv.from_sq() as int].ptype() != PieceType::PAWN, m)
            == names_piece_move(pos, mv.to_sq(), pos.pieces@[mv.from_sq() as int].ptype(), None, san_origin(pos, mv), m),
{
    lemma_pseudo_legal_plain(pos, mv);
    lemma_move_squares(mv);
    lemma_san_clean_shape(pos, mv);
    let f = mv.from_sq() as int;
    let to = mv.to_sq() as int;
    let pt = pos.pieces@[f].ptype();
    let upper = pt != PieceType::PAWN;
    let b = san_bytes(pos, mv);
    let pre = type_letter(pt) + san_origin(pos, mv);
    let sb = square_bytes(to);
    let c = san_clean(b);
    assert(c =~= pre + sb);
    assert forall|i: int| 0 <= i < c.len() implies #[trigger] c[i] != 61 by {
        if i < pre.len() {
            assert(c[i] == pre[i]);
        } else {
            assert(c[i] == sb[i - pre.len()]);
        }
    }
    lemma_first_eq_none(c);
    let t = san_target(c);
    assert(t =~= c);
    assert(san_promo(c) is None);
    assert(c.last() == sb[1]);
    assert(c != seq![79u8, 45u8, 79u8]);
    assert(c != seq![79u8, 45u8, 79u8, 45u8, 79u8]);
    assert(t[t.len() - 2] == sb[0] && t[t.len() - 1] == sb[1]);
    assert(square_named(t[t.len() - 2], t[t.len() - 1]) == Some(to as nat));
    let chars = ascii_chars(b);
    assert(chars[0] == b[0] as char);
    lemma_first_kept_head(chars);
    let first = b[0] as char;
    assert(san_disambiguation(t, upper) =~= san_origin(pos, mv));
    assert(upper ==> t.len() >= 3);
    assert(san_piece_type(first, upper) == Some(pt));
}

/// The origin part fits exactly the origins on the file it writes, if it writes one,
/// and on the rank it writes, if it writes one.
proof fn lemma_san_origin_fits(pos: Board, mv: Move, x: nat)
    requires
        mv.from_sq() < 64,
    ensures
        disambiguation_fits(san_origin(pos, mv), x) == ((san_needs_file(pos, mv) ==> x % 8 == mv.from_sq() % 8)
            && (san_needs_rank(pos, mv) ==> x / 8 == mv.from_sq() / 8)),
{
    let f = mv.from_sq();
    let d = san_origin(pos, mv);
    if san_needs_file(pos, mv) {
        assert(d[0] == (97 + f % 8) as u8);
        assert(fits_origin(d[0], x) == (x % 8 == f % 8));
    }
    if san_needs_rank(pos, mv) {
        let k = if san_needs_file(pos, mv) { 1int } else { 0int };
        assert(d[k] == (49 + f / 8) as u8);
        assert(fits_origin(d[k], x) == (x / 8 == f / 8));
    }
}

/// Reading back what `move_to_san` writes for a pseudo-legal move that is neither a
/// castle nor a promotion names that move and no other pseudo-legal move (the first
/// character counting as upper case exactly when it is a piece letter).
pub proof fn lemma_san_round_trip(pos: Board, mv: Move, m: Move)
    requires
        ready(&pos),
        pseudo_legal(pos, false, mv),
        !mv.castle_flag(),
        mv.promoted_idx() == 0,
        pseudo_legal(pos, false, m),
    ensures
        san_names(pos, san_bytes(pos, mv), first_kept_char(ascii_chars(san_bytes(pos, mv))),
            pos.pieces@[mv.from_sq() as int].ptype() != PieceType::PAWN, m) <==> m == mv,
{
    lemma_pseudo_legal_plain(pos, mv);
    lemma_move_squares(mv);
    lemma_move_squares(m);
    lemma_san_reads_as(pos, mv, m);
    lemma_san_reads_as(pos, mv, mv);
    lemma_san_origin_fits(pos, mv, m.from_sq());
    lemma_san_origin_fits(pos, mv, mv.from_sq());
    let f = mv.from_sq();
    let pt = pos.pieces@[f as int].ptype();
    if names_piece_move(pos, mv.to_sq(), pt, None, san_origin(pos, mv), m) {
        if m.from_sq() == f {
            lemma_pseudo_legal_unique(pos, mv, m);
        } else {
            assert(san_rival(pos, mv, m));
            if m.from_sq() % 8 == f % 8 {
                assert(san_needs_rank(pos, mv));
                assert(m.from_sq() == (m.from_sq() / 8) * 8 + m.from_sq() % 8);
                assert(f == (f / 8) * 8 + f % 8);
            } else {
                assert(san_needs_file(pos, mv));
            }
        }
    }
}

} // verus!
