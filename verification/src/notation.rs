use vstd::prelude::*;
use crate::text;
use crate::text::{push_char, push_dec};

verus! {

/// Square name: file letter a..g, then the rank number (index / 7 + 1).
pub open spec fn sq_chars(idx: u8) -> Seq<char> {
    seq![((97 + idx % 7) as int) as char] + text::dec_chars((idx / 7 + 1) as nat)
}

/// Move text: the two square names, e.g. "a1b1" (a river jump is just from and to).
pub open spec fn move_chars(m: (u8, u8)) -> Seq<char> {
    sq_chars(m.0) + sq_chars(m.1)
}

/// Name of a square.
pub fn sq_to_str(idx: u8) -> (s: String)
    ensures
        s@ == sq_chars(idx),
{
    let mut s = String::new();
    let file = idx % 7;
    let rank = idx / 7 + 1;
    push_char(&mut s, (97u8 + file) as char);
    push_dec(&mut s, rank as u64);
    s
}

/// Text of a move.
pub fn move_to_uci(m: (u8, u8)) -> (s: String)
    ensures
        s@ == move_chars(m),
{
    let mut s = sq_to_str(m.0);
    let t = sq_to_str(m.1);
    text::push_chars(&mut s, text::str_chars(t.as_str()).as_slice());
    s
}

/// Square named by a file byte a..g and a rank byte 1..9.
pub open spec fn uci_square(f: u8, r: u8) -> Option<u8> {
    if 97 <= f <= 103 && 49 <= r <= 57 {
        Some(((r - 49) * 7 + (f - 97)) as u8)
    } else {
        None
    }
}

/// The move named by exactly four bytes: two squares.
pub open spec fn uci_spec(b: Seq<u8>) -> Option<(u8, u8)> {
    if b.len() != 4 {
        None
    } else {
        match uci_square(b[0], b[1]) {
            None => None,
            Some(from) => match uci_square(b[2], b[3]) {
                None => None,
                Some(to) => Some((from, to)),
            },
        }
    }
}

fn square_of(f: u8, r: u8) -> (s: Option<u8>)
    ensures
        s == uci_square(f, r),
{
    if !(97 <= f && f <= 103) || !(49 <= r && r <= 57) {
        return None;
    }
    Some(((r - 49) as usize * 7 + (f - 97) as usize) as u8)
}

/// Reads a move such as "a1b1" (exactly four bytes, files a..g, ranks 1..9).
pub fn uci_to_move(s: &str) -> (m: Option<(u8, u8)>)
    ensures
        m == uci_spec(vstd::utf8::encode_utf8(s@)),
{
    let b = s.as_bytes();
    if b.len() != 4 {
        return None;
    }
    let from = match square_of(b[0], b[1]) {
        Some(x) => x,
        None => return None,
    };
    let to = match square_of(b[2], b[3]) {
        Some(x) => x,
        None => return None,
    };
    Some((from, to))
}

/// A move that reads lies between two board squares.
pub proof fn lemma_uci_spec_bounds(b: Seq<u8>)
    ensures
        uci_spec(b) matches Some(m) ==> m.0 < 63 && m.1 < 63,
{
}

/// Reading back the text of a move between two board squares gives the move.
pub proof fn lemma_uci_roundtrip(m: (u8, u8))
    requires
        m.0 < 63,
        m.1 < 63,
    ensures
        uci_spec(vstd::utf8::encode_utf8(move_chars(m))) == Some(m),
{
    let c = move_chars(m);
    assert(text::dec_chars((m.0 / 7 + 1) as nat) == seq![text::digit_char((m.0 / 7 + 1) as int)]);
    assert(text::dec_chars((m.1 / 7 + 1) as nat) == seq![text::digit_char((m.1 / 7 + 1) as int)]);
    assert(c.len() == 4);
    assert(vstd::utf8::is_ascii_chars(c));
    vstd::utf8::is_ascii_chars_encode_utf8(c);
    let b = vstd::utf8::encode_utf8(c);
    assert(b[0] == c[0] as u8);
    assert(b[1] == c[1] as u8);
    assert(b[2] == c[2] as u8);
    assert(b[3] == c[3] as u8);
}

} // verus!
