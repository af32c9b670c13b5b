use vstd::prelude::*;

verus! {

/// Board width (files a..g).
pub const W: usize = 7;
/// Board height (ranks 1..9).
pub const H: usize = 9;
/// Number of squares; a square index is `(rank - 1) * 7 + file`.
pub const N: usize = 63;

/// Red's den (d1).
pub const RED_DEN: u8 = 3;
/// Black's den (d9).
pub const BLACK_DEN: u8 = 59;
/// Red's traps (c1, e1, d2).
pub const RED_TRAPS: [u8; 3] = [2, 4, 10];
/// Black's traps (c9, e9, d8).
pub const BLACK_TRAPS: [u8; 3] = [58, 60, 52];
/// The two lakes.
pub const WATER: [u8; 12] = [22, 23, 25, 26, 29, 30, 32, 33, 36, 37, 39, 40];

/// Plies without a capture after which the game is a draw.
pub const PROGRESS_LIMIT: u32 = 200;

/// A position: piece codes per square (0 empty, 1..8 red rat..elephant, 9..16 black
/// rat..elephant), side to move (0 red, 1 black), the no-capture clock and the move number.
#[derive(Clone, Copy, Debug, PartialEq, Eq)]
pub struct Parsed {
    pub squares: [u8; N],
    pub turn: u8,
    pub progress: u32,
    pub movenum: u32,
}

/// A position whose squares hold only piece codes 0..16 and whose side to move is red or black.
pub open spec fn valid_position(p: Parsed) -> bool {
    &&& p.turn <= 1
    &&& forall|i: int| 0 <= i < 63 ==> #[trigger] p.squares[i] <= 16
}

/// Role of a piece code: 0 for an empty square, else 1..8 (rat..elephant).
#[verifier::allow_in_spec]
pub fn role_of(code: u8) -> u8
    returns
        (if code == 0 { 0u8 } else { ((code - 1) % 8 + 1) as u8 }),
{
    if code == 0 {
        0
    } else {
        ((code - 1) % 8) + 1
    }
}

/// Is the code a red piece (1..8)?
#[verifier::allow_in_spec]
pub fn is_red(code: u8) -> bool
    returns
        1 <= code <= 8,
{
    1 <= code && code <= 8
}

/// Colour of a code: 0 red, 1 black, 2 empty.
#[verifier::allow_in_spec]
pub fn color_of(code: u8) -> u8
    returns
        (if code == 0 { 2u8 } else if code <= 8 { 0u8 } else { 1u8 }),
{
    if code == 0 {
        2
    } else if code <= 8 {
        0
    } else {
        1
    }
}

/// Is the square part of a lake?
#[verifier::allow_in_spec]
pub fn is_water(idx: u8) -> bool
    returns
        (idx == 22 || idx == 23 || idx == 25 || idx == 26 || idx == 29 || idx == 30 || idx == 32
            || idx == 33 || idx == 36 || idx == 37 || idx == 39 || idx == 40),
{
    let mut i: usize = 0;
    while i < 12
        invariant
            0 <= i <= 12,
            forall|j: int| 0 <= j < i ==> WATER[j] != idx,
        decreases 12 - i,
    {
        if WATER[i] == idx {
            return true;
        }
        i += 1;
    }
    false
}

/// Owner of a trap square: 0 red, 1 black, 2 not a trap.
#[verifier::allow_in_spec]
pub fn trap_owner(idx: u8) -> u8
    returns
        (if idx == 2 || idx == 4 || idx == 10 {
            0u8
        } else if idx == 58 || idx == 60 || idx == 52 {
            1u8
        } else {
            2u8
        }),
{
    if RED_TRAPS[0] == idx || RED_TRAPS[1] == idx || RED_TRAPS[2] == idx {
        0
    } else if BLACK_TRAPS[0] == idx || BLACK_TRAPS[1] == idx || BLACK_TRAPS[2] == idx {
        1
    } else {
        2
    }
}

/// The rank rule on roles 1..8: a higher role captures a lower or equal one, except that the rat
/// captures the elephant and the elephant never captures the rat.
#[verifier::allow_in_spec]
pub fn rank_beats(attacker: u8, target: u8) -> bool
    returns
        (if attacker == 1 && target == 8 {
            true
        } else if attacker == 8 && target == 1 {
            false
        } else {
            attacker >= target
        }),
{
    if attacker == 1 && target == 8 {
        return true;
    }
    if attacker == 8 && target == 1 {
        return false;
    }
    attacker >= target
}

/// Can the piece `attacker` on `from` capture `target` on `to`? No capture across the shore
/// (land to water or back); a target on one of the attacker's own traps has rank 0; otherwise
/// the rank rule decides.
#[verifier::allow_in_spec]
pub fn can_capture(attacker: u8, from: u8, target: u8, to: u8) -> bool
    returns
        (if is_water(from) != is_water(to) {
            false
        } else if trap_owner(to) == color_of(attacker) {
            true
        } else {
            rank_beats(role_of(attacker), role_of(target))
        }),
{
    if is_water(from) != is_water(to) {
        return false;
    }
    if trap_owner(to) == color_of(attacker) {
        return true;
    }
    rank_beats(role_of(attacker), role_of(target))
}

/// The den that the side `turn` attacks.
#[verifier::allow_in_spec]
pub fn opp_den(turn: u8) -> u8
    returns
        (if turn == 0 { BLACK_DEN } else { RED_DEN }),
{
    if turn == 0 {
        BLACK_DEN
    } else {
        RED_DEN
    }
}

/// The den that the side `turn` owns.
#[verifier::allow_in_spec]
pub fn own_den(turn: u8) -> u8
    returns
        (if turn == 0 { RED_DEN } else { BLACK_DEN }),
{
    if turn == 0 {
        RED_DEN
    } else {
        BLACK_DEN
    }
}

/// Piece code on square `i` of the starting position.
pub open spec fn initial_code(i: int) -> u8 {
    if i == 0 {
        7
    } else if i == 6 {
        6
    } else if i == 8 {
        3
    } else if i == 12 {
        2
    } else if i == 14 {
        1
    } else if i == 16 {
        5
    } else if i == 18 {
        4
    } else if i == 20 {
        8
    } else if i == 62 {
        15
    } else if i == 56 {
        14
    } else if i == 54 {
        11
    } else if i == 50 {
        10
    } else if i == 48 {
        9
    } else if i == 46 {
        13
    } else if i == 44 {
        12
    } else if i == 42 {
        16
    } else {
        0
    }
}

/// Square reached by turning the board half a turn.
pub open spec fn rotated(i: int) -> int {
    62 - i
}

/// The starting position, red to move: red lion a1, tiger g1, dog b2, cat f2, rat a3,
/// leopard c3, wolf e3, elephant g3; black is the half-turn rotation.
pub fn initial() -> (p: Parsed)
    ensures
        forall|i: int| 0 <= i < 63 ==> #[trigger] p.squares[i] == initial_code(i),
        p.turn == 0,
        p.progress == 0,
        p.movenum == 1,
        valid_position(p),
{
    let mut squares = [0u8; N];
    // (board index, role) for red; black takes the rotated square and role + 8.
    let red: [(usize, u8); 8] = [(0, 7), (6, 6), (8, 3), (12, 2), (14, 1), (16, 5), (18, 4), (20, 8)];
    let mut k: usize = 0;
    while k < 8
        invariant
            0 <= k <= 8,
            red@ == seq![(0usize, 7u8), (6usize, 6u8), (8usize, 3u8), (12usize, 2u8),
                (14usize, 1u8), (16usize, 5u8), (18usize, 4u8), (20usize, 8u8)],
            forall|i: int|
                0 <= i < 63 ==> #[trigger] squares[i] == (if (exists|j: int|
                    0 <= j < k && (red@[j].0 == i || rotated(red@[j].0 as int) == i)) {
                    initial_code(i)
                } else {
                    0u8
                }),
        decreases 8 - k,
    {
        let (idx, role) = red[k];
        squares[idx] = role;
        let file = idx % W;
        let rank = idx / W + 1;
        let ridx = (H - rank) * W + (W - 1 - file);
        assert(ridx == 62 - idx);
        squares[ridx] = role + 8;
        proof {
            assert forall|i: int| 0 <= i < 63 implies #[trigger] squares[i] == (if (exists|j: int|
                0 <= j < k + 1 && (red@[j].0 == i || rotated(red@[j].0 as int) == i)) {
                initial_code(i)
            } else {
                0u8
            }) by {
                if i == idx as int || i == ridx as int {
                    assert(red@[k as int].0 == i || rotated(red@[k as int].0 as int) == i);
                } else {
                    if exists|j: int|
                        0 <= j < k + 1 && (red@[j].0 == i || rotated(red@[j].0 as int) == i) {
                        let j = choose|j: int|
                            0 <= j < k + 1 && (red@[j].0 == i || rotated(red@[j].0 as int) == i);
                        assert(j != k);
                    }
                }
            }
        }
        k += 1;
    }
    proof {
        assert forall|i: int| 0 <= i < 63 implies #[trigger] squares[i] == initial_code(i) by {
            if initial_code(i) != 0 {
                let j = if i == 0 || i == 62 {
                    0int
                } else if i == 6 || i == 56 {
                    1
                } else if i == 8 || i == 54 {
                    2
                } else if i == 12 || i == 50 {
                    3
                } else if i == 14 || i == 48 {
                    4
                } else if i == 16 || i == 46 {
                    5
                } else if i == 18 || i == 44 {
                    6
                } else {
                    7
                };
                assert(red@[j].0 == i || rotated(red@[j].0 as int) == i);
            }
        }
    }
    Parsed { squares, turn: 0, progress: 0, movenum: 1 }
}

/// A position from raw square codes and a side to move: the first 63 codes are copied (missing
/// ones stay empty), the clock is 0 and the move number 1.
pub fn parsed_from_squares(squares: &[u8], turn: u8) -> (p: Parsed)
    ensures
        forall|i: int|
            0 <= i < 63 ==> #[trigger] p.squares[i] == (if i < squares@.len() {
                squares@[i]
            } else {
                0u8
            }),
        p.turn == turn,
        p.progress == 0,
        p.movenum == 1,
{
    let mut sq = [0u8; N];
    let n = if squares.len() < N {
        squares.len()
    } else {
        N
    };
    let mut i: usize = 0;
    while i < n
        invariant
            0 <= i <= n,
            n <= 63,
            n <= squares@.len(),
            n == 63 || n == squares@.len(),
            forall|j: int|
                0 <= j < 63 ==> #[trigger] sq[j] == (if j < i {
                    squares@[j]
                } else {
                    0u8
                }),
        decreases n - i,
    {
        sq[i] = squares[i];
        i += 1;
    }
    Parsed { squares: sq, turn, progress: 0, movenum: 1 }
}

/// Squares after moving the piece on `m.0` to `m.1` (whatever stood there is removed).
pub open spec fn moved_squares(s: Seq<u8>, from: int, to: int) -> Seq<u8> {
    s.update(from, 0).update(to, s[from])
}

/// Can `make_move` apply `m` to `p` without overflow: both squares on the board, a side to
/// move, and room on the clocks that the move advances.
pub open spec fn can_make_move(p: Parsed, m: (u8, u8)) -> bool {
    &&& m.0 < 63
    &&& m.1 < 63
    &&& p.turn <= 1
    &&& p.squares[m.1 as int] == 0 ==> p.progress < u32::MAX
    &&& p.turn == 1 ==> p.movenum < u32::MAX
}

/// Apply a move (no legality check): the piece leaves `m.0` and lands on `m.1`, the side to
/// move flips, the clock resets on a capture and otherwise ticks, and the move number advances
/// after black's move.
pub fn make_move(p: &Parsed, m: (u8, u8)) -> (r: Parsed)
    requires
        can_make_move(*p, m),
    ensures
        r.squares@ == moved_squares(p.squares@, m.0 as int, m.1 as int),
        r.turn == 1 - p.turn,
        r.progress == (if p.squares[m.1 as int] != 0 {
            0
        } else {
            p.progress + 1
        }),
        r.movenum == (if p.turn == 1 {
            p.movenum + 1
        } else {
            p.movenum as int
        }),
{
    let mut squares = p.squares;
    let moving = squares[m.0 as usize];
    let captured = squares[m.1 as usize];
    squares[m.0 as usize] = 0;
    squares[m.1 as usize] = moving;
    Parsed {
        squares,
        turn: 1 - p.turn,
        progress: if captured != 0 {
            0
        } else {
            p.progress + 1
        },
        movenum: if p.turn == 1 {
            p.movenum + 1
        } else {
            p.movenum
        },
    }
}

/// Make-move keeps a valid position valid.
pub proof fn lemma_make_move_valid(p: Parsed, m: (u8, u8), r: Parsed)
    requires
        valid_position(p),
        can_make_move(p, m),
        r.squares@ == moved_squares(p.squares@, m.0 as int, m.1 as int),
        r.turn == 1 - p.turn,
    ensures
        valid_position(r),
{
    assert forall|i: int| 0 <= i < 63 implies #[trigger] r.squares[i] <= 16 by {
        assert(r.squares[i] == r.squares@[i]);
        assert(p.squares[m.0 as int] <= 16);
        assert(p.squares[i] <= 16);
    }
}

/// Game status of a position.
#[derive(Clone, Copy, Debug, PartialEq, Eq)]
pub enum Status {
    Playing,
    /// The colour that won.
    Win(u8),
    Draw,
}

} // verus!
