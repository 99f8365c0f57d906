//! Text built from ASCII bytes: square names and move notation.
use vstd::prelude::*;

verus! {

/// The characters of ASCII bytes.
pub open spec fn ascii_chars(bytes: Seq<u8>) -> Seq<char> {
    bytes.map_values(|b: u8| b as char)
}

pub open spec fn all_ascii(bytes: Seq<u8>) -> bool {
    forall|i: int| 0 <= i < bytes.len() ==> #[trigger] bytes[i] < 128
}

/// `String::from_utf8`: ASCII bytes are valid UTF-8, so the conversion succeeds and the
/// string's characters are the bytes one for one.
#[verifier::external_body]
pub(crate) fn ascii_string(bytes: Vec<u8>) -> (s: String)
    requires
        all_ascii(bytes@),
    ensures
        s@ == ascii_chars(bytes@),
{
    String::from_utf8(bytes).unwrap_or_default()
}

/// The name of a square, file letter then rank digit ("a1" for 0, "h8" for 63).
pub open spec fn square_bytes(sq: int) -> Seq<u8> {
    seq![(97 + sq % 8) as u8, (49 + sq / 8) as u8]
}

/// Appends the name of `square`.
pub fn push_square(out: &mut Vec<u8>, square: usize)
    requires
        square < 64,
    ensures
        final(out)@ == old(out)@ + square_bytes(square as int),
{
    out.push(97u8 + (square % 8) as u8);
    out.push(49u8 + (square / 8) as u8);
    proof {
        assert(out@ =~= old(out)@ + square_bytes(square as int));
    }
}

/// The letter of a promotion piece in move notation (by piece index), or nothing.
pub open spec fn promo_bytes(promoted: nat) -> Seq<u8> {
    if promoted == 8 || promoted == 9 {
        seq![110u8]
    } else if promoted == 12 || promoted == 13 {
        seq![98u8]
    } else if promoted == 16 || promoted == 17 {
        seq![114u8]
    } else if promoted == 20 || promoted == 21 {
        seq![113u8]
    } else if promoted == 28 || promoted == 29 {
        seq![100u8]
    } else {
        Seq::empty()
    }
}

/// Appends the promotion letter of a piece index: n, b, r, q or d, else nothing.
pub fn push_promo_char(out: &mut Vec<u8>, promo_index: usize)
    ensures
        final(out)@ == old(out)@ + promo_bytes(promo_index as nat),
{
    if promo_index == 8 || promo_index == 9 {
        out.push(110u8);
    } else if promo_index == 12 || promo_index == 13 {
        out.push(98u8);
    } else if promo_index == 16 || promo_index == 17 {
        out.push(114u8);
    } else if promo_index == 20 || promo_index == 21 {
        out.push(113u8);
    } else if promo_index == 28 || promo_index == 29 {
        out.push(100u8);
    }
    proof {
        assert(out@ =~= old(out)@ + promo_bytes(promo_index as nat));
    }
}

/// The name of `square`, as in "e4".
pub fn square_string(square: usize) -> (s: String)
    requires
        square < 64,
    ensures
        s@ == ascii_chars(square_bytes(square as int)),
{
    let mut out: Vec<u8> = Vec::new();
    push_square(&mut out, square);
    ascii_string(out)
}

/// The text of a packed move in the packed encoding: always empty.
pub fn move_string(mv: u32) -> (s: String)
    ensures
        s@ == Seq::<char>::empty(),
{
    String::new()
}

} // verus!
