use vstd::prelude::*;
use crate::board::{Parsed, role_of, is_red, N, W, H};
use crate::text;
use crate::text::{is_ws, parse_u32, push_char, push_dec, str_chars};

verus! {

/// Role letters indexed by role 1..8 ('P' is the leopard, so that 'L' stays the lion).
const ROLE_LETTERS: [u8; 8] = [82, 67, 68, 87, 80, 84, 76, 69];

/// Upper-case letter of a role 1..8: R C D W P T L E.
pub open spec fn role_letter(role: int) -> char {
    if role == 1 {
        'R'
    } else if role == 2 {
        'C'
    } else if role == 3 {
        'D'
    } else if role == 4 {
        'W'
    } else if role == 5 {
        'P'
    } else if role == 6 {
        'T'
    } else if role == 7 {
        'L'
    } else {
        'E'
    }
}

/// Role of an upper-case role letter (by code point), if it is one.
pub open spec fn letter_role(c: u32) -> Option<u8> {
    if c == 82 {
        Some(1u8)
    } else if c == 67 {
        Some(2u8)
    } else if c == 68 {
        Some(3u8)
    } else if c == 87 {
        Some(4u8)
    } else if c == 80 {
        Some(5u8)
    } else if c == 84 {
        Some(6u8)
    } else if c == 76 {
        Some(7u8)
    } else if c == 69 {
        Some(8u8)
    } else {
        None
    }
}

/// Piece code of a FEN letter: R C D W P T L E in upper case are red rat..elephant, in lower
/// case black.
pub open spec fn letter_code_spec(c: char) -> Option<u8> {
    let x = c as u32;
    if 65 <= x <= 90 {
        letter_role(x)
    } else if 97 <= x <= 122 {
        match letter_role((x - 32) as u32) {
            Some(r) => Some((r + 8) as u8),
            None => None,
        }
    } else {
        None
    }
}

/// FEN letter of a piece code: its role letter, lower case for black.
pub open spec fn letter_of(code: u8) -> char {
    let l = role_letter(role_of(code) as int);
    if is_red(code) {
        l
    } else {
        ((l as int) + 32) as char
    }
}

fn letter_to_code(c: u8) -> (r: Option<u8>)
    ensures
        r == letter_code_spec(c as char),
{
    let upper = if 97 <= c && c <= 122 {
        c - 32
    } else {
        c
    };
    assert(ROLE_LETTERS@ == seq![82u8, 67u8, 68u8, 87u8, 80u8, 84u8, 76u8, 69u8]);
    assert((c as char) as u32 == c as u32);
    let mut k: usize = 0;
    while k < 8
        invariant
            0 <= k <= 8,
            ROLE_LETTERS@ == seq![82u8, 67u8, 68u8, 87u8, 80u8, 84u8, 76u8, 69u8],
            (c as char) as u32 == c as u32,
            upper == (if 97 <= c <= 122 { c - 32 } else { c as int }),
            forall|j: int| 0 <= j < k ==> ROLE_LETTERS[j] != upper,
        decreases 8 - k,
    {
        if ROLE_LETTERS[k] == upper {
            let role = k as u8 + 1;
            return Some(
                if 65 <= c && c <= 90 {
                    role
                } else {
                    role + 8
                },
            );
        }
        k += 1;
    }
    None
}

fn code_to_letter(code: u8) -> (l: u8)
    requires
        code != 0,
    ensures
        l as char == letter_of(code),
{
    let l = ROLE_LETTERS[(role_of(code) - 1) as usize];
    if is_red(code) {
        l
    } else {
        l + 32
    }
}

// ── Printing ────────────────────────────────────────────────────────────────

/// Characters of rank index `r` from file `f` on, with `empties` empty squares pending: each run
/// of empty squares is one digit, each piece its letter.
pub open spec fn row_chars(sq: Seq<u8>, r: int, f: int, empties: int) -> Seq<char>
    decreases 7 - f,
{
    if f >= 7 {
        if empties > 0 {
            seq![text::digit_char(empties)]
        } else {
            Seq::empty()
        }
    } else if sq[r * 7 + f] == 0 {
        row_chars(sq, r, f + 1, empties + 1)
    } else {
        (if empties > 0 {
            seq![text::digit_char(empties)]
        } else {
            Seq::empty()
        }) + seq![letter_of(sq[r * 7 + f])] + row_chars(sq, r, f + 1, 0)
    }
}

/// The first `k` ranks from the top (rank 9 first), separated by '/'.
pub open spec fn board_prefix(sq: Seq<u8>, k: int) -> Seq<char>
    decreases k,
{
    if k <= 0 {
        Seq::empty()
    } else {
        board_prefix(sq, k - 1) + row_chars(sq, 9 - k, 0, 0) + if k < 9 {
            seq!['/']
        } else {
            Seq::empty()
        }
    }
}

/// FEN of a position: `<board> <r|b> <clock> <move number>`, ranks from 9 down to 1.
pub open spec fn fen_string(p: Parsed) -> Seq<char> {
    board_prefix(p.squares@, 9) + seq![' ', if p.turn == 0 { 'r' } else { 'b' }, ' ']
        + text::dec_chars(p.progress as nat) + seq![' '] + text::dec_chars(p.movenum as nat)
}

/// The FEN of a position.
pub fn to_fen(p: &Parsed) -> (s: String)
    ensures
        s@ == fen_string(*p),
{
    let mut s = String::new();
    let mut k: usize = 0;
    while k < H
        invariant
            0 <= k <= 9,
            s@ == board_prefix(p.squares@, k as int),
        decreases 9 - k,
    {
        let r: usize = 8 - k;
        let ghost before = s@;
        let mut empties: u8 = 0;
        let mut file: usize = 0;
        while file < W
            invariant
                0 <= file <= 7,
                r <= 8,
                empties <= file,
                s@ + row_chars(p.squares@, r as int, file as int, empties as int) == before
                    + row_chars(p.squares@, r as int, 0, 0),
            decreases 7 - file,
        {
            let code = p.squares[r * W + file];
            let ghost s0 = s@;
            let ghost e0 = empties as int;
            if code == 0 {
                empties += 1;
            } else {
                if empties > 0 {
                    push_char(&mut s, (48u8 + empties) as char);
                }
                empties = 0;
                let l = code_to_letter(code);
                push_char(&mut s, l as char);
            }
            assert(s@ + row_chars(p.squares@, r as int, file + 1, empties as int) == s0
                + row_chars(p.squares@, r as int, file as int, e0));
            file += 1;
        }
        let ghost s1 = s@;
        if empties > 0 {
            push_char(&mut s, (48u8 + empties) as char);
        }
        assert(s@ == s1 + row_chars(p.squares@, r as int, 7, empties as int));
        assert(s@ == before + row_chars(p.squares@, r as int, 0, 0));
        if k < 8 {
            push_char(&mut s, '/');
        }
        k += 1;
    }
    push_char(&mut s, ' ');
    push_char(&mut s, if p.turn == 0 { 'r' } else { 'b' });
    push_char(&mut s, ' ');
    push_dec(&mut s, p.progress as u64);
    push_char(&mut s, ' ');
    push_dec(&mut s, p.movenum as u64);
    s
}

// ── Parsing ─────────────────────────────────────────────────────────────────

/// Tokens of `s` separated by white space, `cur` being the token read so far.
pub open spec fn split_ws(s: Seq<char>, cur: Seq<char>) -> Seq<Seq<char>>
    decreases s.len(),
{
    if s.len() == 0 {
        if cur.len() > 0 {
            seq![cur]
        } else {
            Seq::empty()
        }
    } else if is_ws(s[0]) {
        (if cur.len() > 0 {
            seq![cur]
        } else {
            Seq::empty()
        }) + split_ws(s.drop_first(), Seq::empty())
    } else {
        split_ws(s.drop_first(), cur.push(s[0]))
    }
}

/// The white-space separated tokens of `s` (as `str::split_whitespace` yields them).
pub open spec fn tokens(s: Seq<char>) -> Seq<Seq<char>> {
    split_ws(s, Seq::empty())
}

/// The pieces of `s` between occurrences of `sep` (as `str::split` yields them), `cur` being
/// the piece read so far.
pub open spec fn split_on(s: Seq<char>, sep: char, cur: Seq<char>) -> Seq<Seq<char>>
    decreases s.len(),
{
    if s.len() == 0 {
        seq![cur]
    } else if s[0] == sep {
        seq![cur] + split_on(s.drop_first(), sep, Seq::empty())
    } else {
        split_on(s.drop_first(), sep, cur.push(s[0]))
    }
}

/// An empty rank.
pub open spec fn zeros7() -> Seq<u8> {
    Seq::new(7, |i: int| 0u8)
}

/// Reads a rank from file `file` on into `row`: a digit skips that many files, a letter places
/// its piece; the rank must end exactly after file g.
pub open spec fn parse_rank(s: Seq<char>, file: int, row: Seq<u8>) -> Option<Seq<u8>>
    decreases s.len(),
{
    if s.len() == 0 {
        if file == 7 {
            Some(row)
        } else {
            None
        }
    } else if text::is_digit(s[0]) {
        parse_rank(s.drop_first(), file + (s[0] as int - 48), row)
    } else {
        match letter_code_spec(s[0]) {
            None => None,
            Some(code) => if file >= 7 {
                None
            } else {
                parse_rank(s.drop_first(), file + 1, row.update(file, code))
            },
        }
    }
}

/// The rank read from the `ri`-th board piece (rank 9 first).
pub open spec fn rank_row(parts: Seq<Seq<char>>, ri: int) -> Option<Seq<u8>> {
    parse_rank(parts[ri], 0, zeros7())
}

/// Squares of a board whose nine ranks all read.
pub open spec fn board_from(parts: Seq<Seq<char>>) -> Seq<u8> {
    Seq::new(63, |i: int| rank_row(parts, 8 - i / 7).unwrap()[i % 7])
}

/// Side to move of a FEN: black when the second token is exactly "b", else red.
pub open spec fn fen_turn(t: Seq<Seq<char>>) -> u8 {
    if t.len() > 1 && t[1] == seq!['b'] {
        1
    } else {
        0
    }
}

/// The `k`-th token read as a `u32`, or `default` when it is missing or does not read.
pub open spec fn token_u32(t: Seq<Seq<char>>, k: int, default: u32) -> u32 {
    if t.len() > k {
        match text::parse_u32_spec(t[k]) {
            Some(v) => v,
            None => default,
        }
    } else {
        default
    }
}

/// What a FEN describes: squares, side to move, no-capture clock (default 0) and move number
/// (default 1); None when there is no board or the board is not nine well-formed ranks.
pub open spec fn fen_parse_spec(s: Seq<char>) -> Option<(Seq<u8>, u8, u32, u32)> {
    let t = tokens(s);
    if t.len() == 0 {
        None
    } else {
        let parts = split_on(t[0], '/', Seq::empty());
        if parts.len() != 9 || !(forall|ri: int| 0 <= ri < 9 ==> #[trigger] rank_row(parts, ri) is Some) {
            None
        } else {
            Some((board_from(parts), fen_turn(t), token_u32(t, 2, 0), token_u32(t, 3, 1)))
        }
    }
}

/// The white-space separated tokens of `s`.
pub fn split_whitespace(s: &Vec<char>) -> (toks: Vec<Vec<char>>)
    ensures
        toks@.len() == tokens(s@).len(),
        forall|j: int| 0 <= j < toks@.len() ==> #[trigger] toks@[j]@ == tokens(s@)[j],
{
    let mut toks: Vec<Vec<char>> = Vec::new();
    let mut cur: Vec<char> = Vec::new();
    let ghost g: Seq<Seq<char>> = Seq::empty();
    let mut i: usize = 0;
    assert(s@.subrange(0, s@.len() as int) == s@);
    while i < s.len()
        invariant
            0 <= i <= s@.len(),
            toks@.len() == g.len(),
            forall|j: int| 0 <= j < toks@.len() ==> #[trigger] toks@[j]@ == g[j],
            g + split_ws(s@.subrange(i as int, s@.len() as int), cur@) == tokens(s@),
        decreases s@.len() - i,
    {
        let ghost sub = s@.subrange(i as int, s@.len() as int);
        assert(sub.drop_first() == s@.subrange(i + 1, s@.len() as int));
        assert(sub[0] == s@[i as int]);
        let c = s[i];
        if is_ws(c) {
            if cur.len() > 0 {
                proof {
                    g = g.push(cur@);
                }
                toks.push(cur);
                cur = Vec::new();
                assert(g + split_ws(s@.subrange(i + 1, s@.len() as int), cur@) == tokens(s@));
            } else {
                assert(cur@ == Seq::<char>::empty());
                assert(split_ws(sub, cur@) == split_ws(sub.drop_first(), Seq::empty()));
            }
        } else {
            cur.push(c);
        }
        i += 1;
    }
    assert(s@.subrange(i as int, s@.len() as int) == Seq::<char>::empty());
    if cur.len() > 0 {
        proof {
            g = g.push(cur@);
        }
        toks.push(cur);
    }
    assert(g == tokens(s@));
    toks
}

/// The pieces of `s` between the occurrences of `sep`.
pub fn split_char(s: &Vec<char>, sep: char) -> (parts: Vec<Vec<char>>)
    ensures
        parts@.len() == split_on(s@, sep, Seq::empty()).len(),
        forall|j: int| 0 <= j < parts@.len() ==> #[trigger] parts@[j]@ == split_on(s@, sep, Seq::empty())[j],
{
    let mut parts: Vec<Vec<char>> = Vec::new();
    let mut cur: Vec<char> = Vec::new();
    let ghost g: Seq<Seq<char>> = Seq::empty();
    let mut i: usize = 0;
    assert(s@.subrange(0, s@.len() as int) == s@);
    while i < s.len()
        invariant
            0 <= i <= s@.len(),
            parts@.len() == g.len(),
            forall|j: int| 0 <= j < parts@.len() ==> #[trigger] parts@[j]@ == g[j],
            g + split_on(s@.subrange(i as int, s@.len() as int), sep, cur@) == split_on(s@, sep, Seq::empty()),
        decreases s@.len() - i,
    {
        let ghost sub = s@.subrange(i as int, s@.len() as int);
        assert(sub.drop_first() == s@.subrange(i + 1, s@.len() as int));
        assert(sub[0] == s@[i as int]);
        let c = s[i];
        if c == sep {
            proof {
                g = g.push(cur@);
            }
            parts.push(cur);
            cur = Vec::new();
            assert(g + split_on(s@.subrange(i + 1, s@.len() as int), sep, cur@) == split_on(s@, sep, Seq::empty()));
        } else {
            cur.push(c);
        }
        i += 1;
    }
    assert(s@.subrange(i as int, s@.len() as int) == Seq::<char>::empty());
    proof {
        g = g.push(cur@);
    }
    parts.push(cur);
    parts
}

/// Once the file is past h, the rank cannot read.
proof fn lemma_parse_rank_past_end(s: Seq<char>, file: int, row: Seq<u8>)
    requires
        file > 7,
    ensures
        parse_rank(s, file, row) is None,
    decreases s.len(),
{
    if s.len() > 0 {
        if text::is_digit(s[0]) {
            lemma_parse_rank_past_end(s.drop_first(), file + (s[0] as int - 48), row);
        }
    }
}

/// Reads one rank.
fn read_rank(part: &Vec<char>) -> (r: Option<[u8; 7]>)
    ensures
        match r {
            Some(row) => parse_rank(part@, 0, zeros7()) == Some(row@),
            None => parse_rank(part@, 0, zeros7()) is None,
        },
{
    let mut row = [0u8; 7];
    let mut file: usize = 0;
    let mut i: usize = 0;
    assert(row@ == zeros7());
    assert(part@.subrange(0, part@.len() as int) == part@);
    while i < part.len()
        invariant
            0 <= i <= part@.len(),
            file <= 7,
            row@.len() == 7,
            parse_rank(part@.subrange(i as int, part@.len() as int), file as int, row@) == parse_rank(
                part@,
                0,
                zeros7(),
            ),
        decreases part@.len() - i,
    {
        let ghost sub = part@.subrange(i as int, part@.len() as int);
        assert(sub.drop_first() == part@.subrange(i + 1, part@.len() as int));
        assert(sub[0] == part@[i as int]);
        let c = part[i];
        if '0' <= c && c <= '9' {
            file += ((c as u32) - 48) as usize;
            if file > 7 {
                proof {
                    lemma_parse_rank_past_end(part@.subrange(i + 1, part@.len() as int), file as int, row@);
                }
                return None;
            }
        } else {
            let x = c as u32;
            let code = if x < 128 {
                assert(((x as u8) as char) as u32 == x);
                letter_to_code(x as u8)
            } else {
                None
            };
            assert(code == letter_code_spec(c));
            match code {
                None => {
                    return None;
                },
                Some(code) => {
                    if file >= W {
                        return None;
                    }
                    row[file] = code;
                    file += 1;
                },
            }
        }
        i += 1;
    }
    assert(part@.subrange(i as int, part@.len() as int) == Seq::<char>::empty());
    if file != W {
        return None;
    }
    Some(row)
}

/// Reads a FEN (`<board> [<r|b>] [<clock>] [<move number>]`, ranks from 9 down to 1, a digit
/// for a run of empty squares, a letter for a piece). None when there is no board or the board
/// is not nine ranks of seven files; a side other than "b" is red, a clock or move number that
/// does not read as a `u32` takes its default (0 and 1).
pub fn state_from_fen(fen: &str) -> (r: Option<Parsed>)
    ensures
        match r {
            Some(q) => fen_parse_spec(fen@) == Some((q.squares@, q.turn, q.progress, q.movenum)),
            None => fen_parse_spec(fen@) is None,
        },
{
    let chars = str_chars(fen);
    let toks = split_whitespace(&chars);
    let ghost t = tokens(fen@);
    if toks.len() == 0 {
        return None;
    }
    let turn: u8 = if toks.len() > 1 && toks[1].len() == 1 && toks[1][0] == 'b' {
        1
    } else {
        0
    };
    assert(turn == fen_turn(t)) by {
        if toks@.len() > 1 {
            assert(toks@[1]@ == t[1]);
            if toks@[1]@.len() == 1 && toks@[1]@[0] == 'b' {
                assert(t[1] == seq!['b']);
            }
        }
    }
    let progress: u32 = if toks.len() > 2 {
        match parse_u32(toks[2].as_slice()) {
            Some(v) => v,
            None => 0,
        }
    } else {
        0
    };
    assert(toks@.len() > 2 ==> toks@[2]@ == t[2]);
    let movenum: u32 = if toks.len() > 3 {
        match parse_u32(toks[3].as_slice()) {
            Some(v) => v,
            None => 1,
        }
    } else {
        1
    };
    assert(toks@.len() > 3 ==> toks@[3]@ == t[3]);
    assert(toks@[0]@ == t[0]);
    let parts = split_char(&toks[0], '/');
    let ghost ps = split_on(t[0], '/', Seq::empty());
    if parts.len() != H {
        return None;
    }
    let mut squares = [0u8; N];
    let mut ri: usize = 0;
    while ri < H
        invariant
            0 <= ri <= 9,
            parts@.len() == 9,
            ps.len() == 9,
            t == tokens(fen@),
            t.len() > 0,
            ps == split_on(t[0], '/', Seq::empty()),
            forall|j: int| 0 <= j < 9 ==> #[trigger] parts@[j]@ == ps[j],
            forall|j: int| 0 <= j < ri ==> #[trigger] rank_row(ps, j) is Some,
            forall|i: int|
                0 <= i < 63 && 8 - i / 7 < ri ==> #[trigger] squares[i] == rank_row(
                    ps,
                    8 - i / 7,
                ).unwrap()[i % 7],
        decreases 9 - ri,
    {
        let row = match read_rank(&parts[ri]) {
            Some(row) => row,
            None => {
                assert(rank_row(ps, ri as int) is None);
                assert(!(forall|j: int| 0 <= j < 9 ==> #[trigger] rank_row(ps, j) is Some));
                return None;
            },
        };
        let rank = H - ri;
        let mut f: usize = 0;
        while f < W
            invariant
                0 <= f <= 7,
                rank == 9 - ri,
                0 <= ri < 9,
                rank_row(ps, ri as int) == Some(row@),
                forall|i: int|
                    0 <= i < 63 && 8 - i / 7 < ri ==> #[trigger] squares[i] == rank_row(
                        ps,
                        8 - i / 7,
                    ).unwrap()[i % 7],
                forall|i: int|
                    0 <= i < 63 && 8 - i / 7 == ri && i % 7 < f ==> #[trigger] squares[i]
                        == row@[i % 7],
            decreases 7 - f,
        {
            squares[(rank - 1) * W + f] = row[f];
            f += 1;
        }
        ri += 1;
    }
    assert(squares@ == board_from(ps));
    Some(Parsed { squares, turn, progress, movenum })
}

// ── Reading back what was printed ───────────────────────────────────────────

/// The codes of rank index `r`.
pub open spec fn rank_squares(sq: Seq<u8>, r: int) -> Seq<u8> {
    sq.subrange(r * 7, r * 7 + 7)
}

proof fn lemma_letter_roundtrip(code: u8)
    requires
        1 <= code <= 16,
    ensures
        letter_code_spec(letter_of(code)) == Some(code),
        !text::is_digit(letter_of(code)),
        !is_ws(letter_of(code)),
        letter_of(code) != '/',
{
    if code == 1 {} else if code == 2 {} else if code == 3 {} else if code == 4 {}
    else if code == 5 {} else if code == 6 {} else if code == 7 {} else if code == 8 {}
    else if code == 9 {} else if code == 10 {} else if code == 11 {} else if code == 12 {}
    else if code == 13 {} else if code == 14 {} else if code == 15 {} else {}
}

/// The printed row characters of a rank hold no white space and no '/', and are not empty
/// when printing starts at file a.
proof fn lemma_row_chars_plain(sq: Seq<u8>, r: int, f: int, e: int)
    requires
        0 <= r < 9,
        0 <= e <= f <= 7,
        sq.len() == 63,
        forall|i: int| 0 <= i < 63 ==> sq[i] <= 16,
    ensures
        forall|i: int|
            0 <= i < row_chars(sq, r, f, e).len() ==> !is_ws(#[trigger] row_chars(sq, r, f, e)[i])
                && row_chars(sq, r, f, e)[i] != '/',
        e > 0 || f < 7 ==> row_chars(sq, r, f, e).len() > 0,
    decreases 7 - f,
{
    if f < 7 {
        let code = sq[r * 7 + f];
        if code == 0 {
            lemma_row_chars_plain(sq, r, f + 1, e + 1);
        } else {
            lemma_row_chars_plain(sq, r, f + 1, 0);
            lemma_letter_roundtrip(code);
            let d: Seq<char> = if e > 0 {
                seq![text::digit_char(e)]
            } else {
                Seq::empty()
            };
            let rest = row_chars(sq, r, f + 1, 0);
            assert(row_chars(sq, r, f, e) == d + seq![letter_of(code)] + rest);
            assert forall|i: int| 0 <= i < row_chars(sq, r, f, e).len() implies !is_ws(
                #[trigger] row_chars(sq, r, f, e)[i],
            ) && row_chars(sq, r, f, e)[i] != '/' by {
                if i < d.len() {
                } else if i == d.len() {
                } else {
                    assert(row_chars(sq, r, f, e)[i] == rest[i - d.len() - 1]);
                }
            }
        }
    }
}

/// Reading a printed rank gives the rank back.
proof fn lemma_rank_roundtrip(sq: Seq<u8>, r: int, f: int, e: int, acc: Seq<u8>)
    requires
        0 <= r < 9,
        0 <= e <= f <= 7,
        sq.len() == 63,
        forall|i: int| 0 <= i < 63 ==> sq[i] <= 16,
        acc.len() == 7,
        forall|j: int| 0 <= j < f - e ==> #[trigger] acc[j] == rank_squares(sq, r)[j],
        forall|j: int| f - e <= j < 7 ==> #[trigger] acc[j] == 0,
        forall|j: int| f - e <= j < f ==> #[trigger] rank_squares(sq, r)[j] == 0,
    ensures
        parse_rank(row_chars(sq, r, f, e), f - e, acc) == Some(rank_squares(sq, r)),
    decreases 7 - f,
{
    if f >= 7 {
        if e > 0 {
            let t = seq![text::digit_char(e)];
            assert(t.drop_first() == Seq::<char>::empty());
            assert(parse_rank(t, f - e, acc) == parse_rank(Seq::<char>::empty(), 7, acc));
        }
        assert(acc == rank_squares(sq, r));
    } else {
        let code = sq[r * 7 + f];
        if code == 0 {
            lemma_rank_roundtrip(sq, r, f + 1, e + 1, acc);
        } else {
            lemma_letter_roundtrip(code);
            let acc2 = acc.update(f, code);
            lemma_rank_roundtrip(sq, r, f + 1, 0, acc2);
            let rest = row_chars(sq, r, f + 1, 0);
            let lr = seq![letter_of(code)] + rest;
            assert(lr.drop_first() == rest);
            assert(parse_rank(lr, f, acc) == parse_rank(rest, f + 1, acc2));
            if e > 0 {
                let t = seq![text::digit_char(e)] + lr;
                assert(row_chars(sq, r, f, e) == t);
                assert(t.drop_first() == lr);
                assert(parse_rank(t, f - e, acc) == parse_rank(lr, f, acc));
            } else {
                assert(row_chars(sq, r, f, e) == lr);
            }
        }
    }
}

proof fn lemma_split_on_plain(x: Seq<char>, y: Seq<char>, sep: char, cur: Seq<char>)
    requires
        forall|i: int| 0 <= i < x.len() ==> x[i] != sep,
    ensures
        split_on(x + seq![sep] + y, sep, cur) == seq![cur + x] + split_on(y, sep, Seq::empty()),
        split_on(x, sep, cur) == seq![cur + x],
    decreases x.len(),
{
    if x.len() == 0 {
        assert(x + seq![sep] + y == seq![sep] + y);
        assert((seq![sep] + y).drop_first() == y);
        assert(cur + x == cur);
    } else {
        lemma_split_on_plain(x.drop_first(), y, sep, cur.push(x[0]));
        assert((x + seq![sep] + y).drop_first() == x.drop_first() + seq![sep] + y);
        assert(cur.push(x[0]) + x.drop_first() == cur + x);
    }
}

/// The ranks of a printed board, top first.
pub open spec fn printed_rows(sq: Seq<u8>, k: int) -> Seq<Seq<char>> {
    Seq::new(k as nat, |i: int| row_chars(sq, 8 - i, 0, 0))
}

proof fn lemma_board_prefix_split(sq: Seq<u8>, k: int, y: Seq<char>)
    requires
        0 <= k <= 8,
        sq.len() == 63,
        forall|i: int| 0 <= i < 63 ==> sq[i] <= 16,
    ensures
        split_on(board_prefix(sq, k) + y, '/', Seq::empty()) == printed_rows(sq, k) + split_on(
            y,
            '/',
            Seq::empty(),
        ),
    decreases k,
{
    if k == 0 {
        assert(board_prefix(sq, 0) + y == y);
        assert(printed_rows(sq, 0) + split_on(y, '/', Seq::empty()) == split_on(y, '/', Seq::empty()));
    } else {
        let row = row_chars(sq, 9 - k, 0, 0);
        lemma_row_chars_plain(sq, 9 - k, 0, 0);
        let y2 = row + seq!['/'] + y;
        lemma_board_prefix_split(sq, k - 1, y2);
        assert(board_prefix(sq, k) + y == board_prefix(sq, k - 1) + y2);
        lemma_split_on_plain(row, y, '/', Seq::empty());
        assert(Seq::<char>::empty() + row == row);
        assert(printed_rows(sq, k) == printed_rows(sq, k - 1).push(row));
    }
}

proof fn lemma_board_plain(sq: Seq<u8>, k: int)
    requires
        0 <= k <= 9,
        sq.len() == 63,
        forall|i: int| 0 <= i < 63 ==> sq[i] <= 16,
    ensures
        forall|i: int| 0 <= i < board_prefix(sq, k).len() ==> !is_ws(#[trigger] board_prefix(sq, k)[i]),
        k > 0 ==> board_prefix(sq, k).len() > 0,
    decreases k,
{
    if k > 0 {
        lemma_board_plain(sq, k - 1);
        lemma_row_chars_plain(sq, 9 - k, 0, 0);
        let a = board_prefix(sq, k - 1);
        let b = row_chars(sq, 9 - k, 0, 0);
        let c: Seq<char> = if k < 9 {
            seq!['/']
        } else {
            Seq::empty()
        };
        assert(board_prefix(sq, k) == a + b + c);
        assert forall|i: int| 0 <= i < board_prefix(sq, k).len() implies !is_ws(
            #[trigger] board_prefix(sq, k)[i],
        ) by {
            if i < a.len() {
                assert(board_prefix(sq, k)[i] == a[i]);
            } else if i < a.len() + b.len() {
                assert(board_prefix(sq, k)[i] == b[i - a.len()]);
            } else {
                assert(board_prefix(sq, k)[i] == c[i - a.len() - b.len()]);
            }
        }
    }
}

proof fn lemma_dec_plain(n: nat)
    ensures
        text::dec_chars(n).len() > 0,
        forall|i: int| 0 <= i < text::dec_chars(n).len() ==> text::is_digit(#[trigger] text::dec_chars(n)[i]),
        text::digits_value(text::dec_chars(n)) == n,
    decreases n,
{
    if n >= 10 {
        lemma_dec_plain(n / 10);
        assert(text::dec_chars(n).drop_last() == text::dec_chars(n / 10));
        let d = (n % 10) as int;
        assert(text::dec_chars(n).last() == text::digit_char(d));
        assert((text::digit_char(d) as int) == d + 48);
        assert(n == (n / 10) * 10 + n % 10) by (nonlinear_arith);
        let t = text::dec_chars(n);
        assert(t.len() > 0);
        assert(text::digits_value(t) == text::digits_value(t.drop_last()) * 10 + ((t.last() as int - 48) as nat));
        assert(text::digits_value(t.drop_last()) == n / 10);
        assert forall|i: int| 0 <= i < text::dec_chars(n).len() implies text::is_digit(#[trigger] text::dec_chars(n)[i]) by {
            if i < text::dec_chars(n / 10).len() {
                assert(text::dec_chars(n)[i] == text::dec_chars(n / 10)[i]);
            }
        }
    } else {
        assert(text::dec_chars(n).drop_last() == Seq::<char>::empty());
        assert((text::digit_char(n as int) as int) == n + 48);
        let t = text::dec_chars(n);
        assert(t.len() == 1);
        assert(text::digits_value(t) == text::digits_value(t.drop_last()) * 10 + ((t.last() as int - 48) as nat));
        assert(text::digits_value(t.drop_last()) == 0);
    }
}

proof fn lemma_dec_parse(n: u32)
    ensures
        text::parse_u32_spec(text::dec_chars(n as nat)) == Some(n),
        forall|i: int| 0 <= i < text::dec_chars(n as nat).len() ==> !is_ws(#[trigger] text::dec_chars(n as nat)[i]),
        text::dec_chars(n as nat).len() > 0,
{
    lemma_dec_plain(n as nat);
    let d = text::dec_chars(n as nat);
    assert(text::is_digit(d[0]));
    assert(text::strip_plus(d) == d);
    assert forall|i: int| 0 <= i < d.len() implies !is_ws(#[trigger] d[i]) by {
        assert(text::is_digit(d[i]));
    }
}

proof fn lemma_split_ws_word(x: Seq<char>, y: Seq<char>, cur: Seq<char>)
    requires
        forall|i: int| 0 <= i < x.len() ==> !is_ws(#[trigger] x[i]),
    ensures
        split_ws(x + y, cur) == split_ws(y, cur + x),
    decreases x.len(),
{
    if x.len() == 0 {
        assert(x + y == y);
        assert(cur + x == cur);
    } else {
        assert(!is_ws(x[0]));
        lemma_split_ws_word(x.drop_first(), y, cur.push(x[0]));
        assert((x + y).drop_first() == x.drop_first() + y);
        assert((x + y)[0] == x[0]);
        assert(cur.push(x[0]) + x.drop_first() == cur + x);
    }
}

proof fn lemma_split_ws_space(y: Seq<char>, cur: Seq<char>)
    requires
        cur.len() > 0,
    ensures
        split_ws(seq![' '] + y, cur) == seq![cur] + split_ws(y, Seq::empty()),
{
    assert((seq![' '] + y).drop_first() == y);
    assert((seq![' '] + y)[0] == ' ');
}

/// Reading back the FEN of a valid position gives the same position.
pub proof fn lemma_fen_roundtrip(p: Parsed)
    requires
        crate::board::valid_position(p),
    ensures
        fen_parse_spec(fen_string(p)) == Some((p.squares@, p.turn, p.progress, p.movenum)),
{
    let sq = p.squares@;
    assert forall|i: int| 0 <= i < 63 implies sq[i] <= 16 by {
        assert(p.squares[i] <= 16);
    }
    let b = board_prefix(sq, 9);
    let tc = if p.turn == 0 {
        'r'
    } else {
        'b'
    };
    let d1 = text::dec_chars(p.progress as nat);
    let d2 = text::dec_chars(p.movenum as nat);
    lemma_board_plain(sq, 9);
    lemma_dec_parse(p.progress);
    lemma_dec_parse(p.movenum);
    let s = fen_string(p);
    let e: Seq<char> = Seq::empty();
    // tokens
    let tail1 = seq![tc] + (seq![' '] + (d1 + (seq![' '] + d2)));
    assert(s == b + (seq![' '] + tail1));
    lemma_split_ws_word(b, seq![' '] + tail1, e);
    assert(e + b == b);
    lemma_split_ws_space(tail1, b);
    let tail2 = d1 + (seq![' '] + d2);
    assert forall|i: int| 0 <= i < seq![tc].len() implies !is_ws(#[trigger] seq![tc][i]) by {}
    lemma_split_ws_word(seq![tc], seq![' '] + tail2, e);
    assert(e + seq![tc] == seq![tc]);
    lemma_split_ws_space(tail2, seq![tc]);
    lemma_split_ws_word(d1, seq![' '] + d2, e);
    assert(e + d1 == d1);
    lemma_split_ws_space(d2, d1);
    lemma_split_ws_word(d2, e, e);
    assert(d2 + e == d2);
    assert(e + d2 == d2);
    let t = tokens(s);
    assert(t == seq![b, seq![tc], d1, d2]);
    // ranks
    lemma_board_prefix_split(sq, 8, row_chars(sq, 0, 0, 0));
    assert(b == board_prefix(sq, 8) + row_chars(sq, 0, 0, 0)) by {
        assert(board_prefix(sq, 9) == board_prefix(sq, 8) + row_chars(sq, 0, 0, 0) + Seq::<char>::empty());
    }
    lemma_row_chars_plain(sq, 0, 0, 0);
    lemma_split_on_plain(row_chars(sq, 0, 0, 0), e, '/', e);
    assert(e + row_chars(sq, 0, 0, 0) == row_chars(sq, 0, 0, 0));
    let parts = split_on(b, '/', e);
    assert(parts == printed_rows(sq, 9)) by {
        assert(printed_rows(sq, 9) == printed_rows(sq, 8) + seq![row_chars(sq, 0, 0, 0)]);
    }
    assert forall|ri: int| 0 <= ri < 9 implies #[trigger] rank_row(parts, ri) == Some(rank_squares(sq, 8 - ri)) by {
        assert(zeros7().len() == 7);
        lemma_rank_roundtrip(sq, 8 - ri, 0, 0, zeros7());
    }
    assert forall|ri: int| 0 <= ri < 9 implies #[trigger] rank_row(parts, ri) is Some by {
        assert(rank_row(parts, ri) == Some(rank_squares(sq, 8 - ri)));
    }
    assert(board_from(parts) == sq) by {
        assert forall|i: int| 0 <= i < 63 implies board_from(parts)[i] == sq[i] by {
            assert(rank_row(parts, 8 - i / 7) == Some(rank_squares(sq, i / 7)));
        }
    }
    assert(fen_turn(t) == p.turn) by {
        if p.turn == 0 {
            assert(seq!['r'] != seq!['b']) by {
                assert(seq!['r'][0] != seq!['b'][0]);
            }
        }
    }
}

/// A read rank holds only piece codes 0..16.
proof fn lemma_parse_rank_codes(s: Seq<char>, file: int, row: Seq<u8>)
    requires
        forall|j: int| 0 <= j < row.len() ==> #[trigger] row[j] <= 16,
        row.len() == 7,
        0 <= file,
    ensures
        parse_rank(s, file, row) matches Some(r) ==> r.len() == 7 && forall|j: int| 0 <= j < r.len() ==> #[trigger] r[j] <= 16,
    decreases s.len(),
{
    if s.len() > 0 {
        if text::is_digit(s[0]) {
            lemma_parse_rank_codes(s.drop_first(), file + (s[0] as int - 48), row);
        } else {
            match letter_code_spec(s[0]) {
                None => {},
                Some(code) => {
                    if file < 7 {
                        let row2 = row.update(file, code);
                        assert(row2.len() == 7);
                        assert(code <= 16);
                        assert forall|j: int| 0 <= j < row2.len() implies #[trigger] row2[j] <= 16 by {
                            if j != file {
                                assert(row2[j] == row[j]);
                            }
                        }
                        lemma_parse_rank_codes(s.drop_first(), file + 1, row2);
                    }
                },
            }
        }
    }
}

/// A position read from a FEN holds only piece codes 0..16 and a side to move 0 or 1.
pub proof fn lemma_fen_parse_valid(s: Seq<char>, q: Parsed)
    requires
        fen_parse_spec(s) == Some((q.squares@, q.turn, q.progress, q.movenum)),
    ensures
        crate::board::valid_position(q),
{
    let t = tokens(s);
    let parts = split_on(t[0], '/', Seq::empty());
    assert forall|i: int| 0 <= i < 63 implies #[trigger] q.squares[i] <= 16 by {
        let ri = 8 - i / 7;
        assert(rank_row(parts, ri) is Some);
        lemma_parse_rank_codes(parts[ri], 0, zeros7());
        assert(q.squares@[i] == board_from(parts)[i]);
    }
}

} // verus!
