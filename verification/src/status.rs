use vstd::prelude::*;
use crate::board::{Parsed, Status, color_of, own_den, PROGRESS_LIMIT, RED_DEN, BLACK_DEN, N};
use crate::movegen;
use crate::movegen::legal_moves;

verus! {

/// Does `color` have a piece on the board?
pub open spec fn has_pieces(p: Parsed, color: u8) -> bool {
    exists|i: int| 0 <= i < 63 && color_of(#[trigger] p.squares[i]) == color
}

/// Does `color` have a piece on the board?
pub fn color_has_pieces(p: &Parsed, color: u8) -> (r: bool)
    ensures
        r == has_pieces(*p, color),
{
    let mut i: usize = 0;
    while i < N
        invariant
            0 <= i <= 63,
            forall|j: int| 0 <= j < i ==> color_of(#[trigger] p.squares[j]) != color,
        decreases 63 - i,
    {
        if color_of(p.squares[i]) == color {
            return true;
        }
        i += 1;
    }
    false
}

/// Status of a position reached by a move that landed on `last_to`: the mover wins by entering
/// the opponent's den, by leaving the opponent without pieces, or by leaving the opponent
/// without a legal move; otherwise the no-capture clock may end the game in a draw.
pub open spec fn board_status_spec(p: Parsed, last_to: u8) -> Status {
    let nxt = p.turn;
    let mover = (1 - nxt) as u8;
    if last_to == own_den(nxt) {
        Status::Win(mover)
    } else if !has_pieces(p, nxt) {
        Status::Win(mover)
    } else if movegen::legal_moves_spec(p).len() == 0 {
        Status::Win(mover)
    } else if p.progress >= PROGRESS_LIMIT {
        Status::Draw
    } else {
        Status::Playing
    }
}

/// Status of `p_new`, the position after a move that landed on `last_to` (repetition is not
/// judged here).
pub fn board_status(p_new: &Parsed, last_to: u8) -> (s: Status)
    requires
        p_new.turn <= 1,
    ensures
        s == board_status_spec(*p_new, last_to),
{
    let nxt = p_new.turn;
    let mover = 1 - nxt;
    let den = if nxt == 0 {
        RED_DEN
    } else {
        BLACK_DEN
    };
    if last_to == den {
        return Status::Win(mover);
    }
    if !color_has_pieces(p_new, nxt) {
        return Status::Win(mover);
    }
    if legal_moves(p_new).len() == 0 {
        return Status::Win(mover);
    }
    if p_new.progress >= PROGRESS_LIMIT {
        return Status::Draw;
    }
    Status::Playing
}

/// The checks of `status_spec` that come before the stalemate check decide nothing.
pub open spec fn reaches_stalemate_check(p: Parsed) -> bool {
    &&& color_of(p.squares[3]) != 1
    &&& color_of(p.squares[59]) != 0
    &&& has_pieces(p, 0)
    &&& has_pieces(p, 1)
}

/// Status of a static position: a piece on the enemy den has won; a side without pieces has
/// lost; a side to move without a legal move has lost; the no-capture clock may draw.
pub open spec fn status_spec(p: Parsed) -> Status {
    if color_of(p.squares[3]) == 1 {
        Status::Win(1)
    } else if color_of(p.squares[59]) == 0 {
        Status::Win(0)
    } else if !has_pieces(p, 0) {
        Status::Win(1)
    } else if !has_pieces(p, 1) {
        Status::Win(0)
    } else if movegen::legal_moves_spec(p).len() == 0 {
        Status::Win((1 - p.turn) as u8)
    } else if p.progress >= PROGRESS_LIMIT {
        Status::Draw
    } else {
        Status::Playing
    }
}

/// Two positions with the same squares and side to move, both short of the no-capture limit,
/// have the same status.
pub proof fn lemma_status_same_board(p: Parsed, q: Parsed)
    requires
        p.squares@ == q.squares@,
        p.turn == q.turn,
        p.progress < PROGRESS_LIMIT,
        q.progress < PROGRESS_LIMIT,
    ensures
        status_spec(p) == status_spec(q),
{
    movegen::lemma_moves_same_board(p, q);
    assert(p.squares =~= q.squares) by {
        broadcast use vstd::array::group_array_axioms;
        assert forall|s: int| 0 <= s < 63 implies p.squares[s] == q.squares[s] by {
            assert(p.squares@[s] == q.squares@[s]);
        }
    }
    assert(has_pieces(p, 0) == has_pieces(q, 0));
    assert(has_pieces(p, 1) == has_pieces(q, 1));
}

/// Status derivable from a position alone (no history): den entry, capture-all, stalemate (a
/// loss for the side to move) and the no-capture clock.
pub fn status_of(p: &Parsed) -> (s: Status)
    requires
        p.turn <= 1 || !reaches_stalemate_check(*p) || movegen::legal_moves_spec(*p).len() > 0,
    ensures
        s == status_spec(*p),
{
    if color_of(p.squares[RED_DEN as usize]) == 1 {
        return Status::Win(1);
    }
    if color_of(p.squares[BLACK_DEN as usize]) == 0 {
        return Status::Win(0);
    }
    if !color_has_pieces(p, 0) {
        return Status::Win(1);
    }
    if !color_has_pieces(p, 1) {
        return Status::Win(0);
    }
    if legal_moves(p).len() == 0 {
        return Status::Win(1 - p.turn);
    }
    if p.progress >= PROGRESS_LIMIT {
        return Status::Draw;
    }
    Status::Playing
}

/// After a legal move from a position still in play, the status that the move gives
/// (`board_status_spec` of the new position and the move's target) is the status of the new
/// position itself.
pub proof fn lemma_move_status_agrees(p: Parsed, m: (u8, u8), c: Parsed)
    requires
        crate::board::valid_position(p),
        status_spec(p) == Status::Playing,
        movegen::legal_moves_spec(p).contains(m),
        c.squares@ == crate::board::moved_squares(p.squares@, m.0 as int, m.1 as int),
        c.turn == 1 - p.turn,
        c.progress == (if p.squares[m.1 as int] != 0 {
            0
        } else {
            p.progress + 1
        }),
    ensures
        board_status_spec(c, m.1) == status_spec(c),
{
    broadcast use vstd::array::group_array_axioms;
    movegen::lemma_legal_moves_ok(p);
    let i = choose|i: int| 0 <= i < movegen::legal_moves_spec(p).len() && movegen::legal_moves_spec(p)[i] == m;
    assert(movegen::move_ok(p, movegen::legal_moves_spec(p)[i]));
    let mover = p.turn;
    assert(color_of(p.squares[m.0 as int]) == mover);
    assert(m.1 != own_den(mover));
    assert(c.squares[m.1 as int] == p.squares[m.0 as int]);
    assert(has_pieces(c, mover));
    if m.1 != 3 && m.0 != 3 {
        assert(c.squares[3] == p.squares[3]);
    }
    if m.1 != 59 && m.0 != 59 {
        assert(c.squares[59] == p.squares[59]);
    }
    if m.0 == 3 {
        assert(c.squares[3] == 0 || m.1 == 3);
    }
    if m.0 == 59 {
        assert(c.squares[59] == 0 || m.1 == 59);
    }
}

} // verus!
