use vstd::prelude::*;
use crate::board::{Parsed, role_of, color_of, is_water, can_capture, own_den, N};

verus! {

/// File (0..6) of a square.
pub open spec fn sq_file(s: int) -> int {
    s % 7
}

/// Rank index (0..8) of a square.
pub open spec fn sq_rank(s: int) -> int {
    s / 7
}

/// Is (file, rank index) on the board?
pub open spec fn on_board(f: int, r: int) -> bool {
    0 <= f < 7 && 0 <= r < 9
}

/// File step of direction `d`: 0 east, 1 west, 2 north, 3 south.
pub open spec fn dir_df(d: int) -> int {
    if d == 1 {
        -1
    } else if d == 2 || d == 3 {
        0
    } else {
        1
    }
}

/// Rank step of direction `d`.
pub open spec fn dir_dr(d: int) -> int {
    if d == 2 {
        1
    } else if d == 3 {
        -1
    } else {
        0
    }
}

/// Steps left before (file, rank) leaves the board going in direction `d`.
pub open spec fn edge_dist(f: int, r: int, d: int) -> int {
    if d == 1 {
        f + 1
    } else if d == 2 {
        9 - r
    } else if d == 3 {
        r + 1
    } else {
        7 - f
    }
}

/// May the piece on `from` end its move on `to`? Never on its own den; on an empty square, or
/// on an enemy piece that it can capture.
pub open spec fn lands(p: Parsed, from: int, to: int) -> bool {
    let code = p.squares[from];
    let me = color_of(code);
    let tgt = p.squares[to];
    &&& to != own_den(me) as int
    &&& (tgt == 0 || (color_of(tgt) != me && can_capture(code, from as u8, tgt, to as u8)))
}

/// One orthogonal step from `from` in direction `d`: onto the board, into water only for a rat.
pub open spec fn step_move(p: Parsed, from: int, d: int) -> Option<(u8, u8)> {
    let nf = sq_file(from) + dir_df(d);
    let nr = sq_rank(from) + dir_dr(d);
    let to = nr * 7 + nf;
    if !on_board(nf, nr) {
        None
    } else if is_water(to as u8) && role_of(p.squares[from]) != 1 {
        None
    } else if lands(p, from, to) {
        Some((from as u8, to as u8))
    } else {
        None
    }
}

/// Walking from (f, r) in direction `d` across water: the first square past the water, or None
/// when the walk leaves the board or a piece in the water blocks it.
pub open spec fn jump_end(p: Parsed, f: int, r: int, d: int) -> Option<int>
    decreases edge_dist(f, r, d),
{
    if !on_board(f, r) {
        None
    } else if !is_water((r * 7 + f) as u8) {
        Some(r * 7 + f)
    } else if p.squares[r * 7 + f] != 0 {
        None
    } else {
        jump_end(p, f + dir_df(d), r + dir_dr(d), d)
    }
}

/// A river jump from `from` in direction `d`: the neighbour must be water, the water run clear,
/// and the piece must be able to land on the far bank.
pub open spec fn jump_move(p: Parsed, from: int, d: int) -> Option<(u8, u8)> {
    let nf = sq_file(from) + dir_df(d);
    let nr = sq_rank(from) + dir_dr(d);
    if !on_board(nf, nr) || !is_water((nr * 7 + nf) as u8) {
        None
    } else {
        match jump_end(p, nf, nr, d) {
            Some(to) => if lands(p, from, to) {
                Some((from as u8, to as u8))
            } else {
                None
            },
            None => None,
        }
    }
}

pub open spec fn opt_seq(o: Option<(u8, u8)>) -> Seq<(u8, u8)> {
    match o {
        Some(m) => seq![m],
        None => Seq::empty(),
    }
}

/// The steps from `from` in directions 0..d, in direction order.
pub open spec fn steps_upto(p: Parsed, from: int, d: int) -> Seq<(u8, u8)>
    decreases d,
{
    if d <= 0 {
        Seq::empty()
    } else {
        steps_upto(p, from, d - 1) + opt_seq(step_move(p, from, d - 1))
    }
}

/// The jumps from `from` in directions lo..d, in direction order.
pub open spec fn jumps_range(p: Parsed, from: int, lo: int, d: int) -> Seq<(u8, u8)>
    decreases d - lo,
{
    if d <= lo {
        Seq::empty()
    } else {
        jumps_range(p, from, lo, d - 1) + opt_seq(jump_move(p, from, d - 1))
    }
}

/// The moves of the piece on `from`: its steps, then (lion in all four directions, tiger
/// north and south only) its river jumps.
pub open spec fn moves_from_seq(p: Parsed, from: int) -> Seq<(u8, u8)> {
    let role = role_of(p.squares[from]);
    steps_upto(p, from, 4) + if role == 7 {
        jumps_range(p, from, 0, 4)
    } else if role == 6 {
        jumps_range(p, from, 2, 4)
    } else {
        Seq::empty()
    }
}

/// The moves of the side to move from the squares 0..k, by square.
pub open spec fn legal_upto(p: Parsed, k: int) -> Seq<(u8, u8)>
    decreases k,
{
    if k <= 0 {
        Seq::empty()
    } else {
        legal_upto(p, k - 1) + if color_of(p.squares[k - 1]) == p.turn {
            moves_from_seq(p, k - 1)
        } else {
            Seq::empty()
        }
    }
}

/// All legal moves of the side to move, in generation order.
pub open spec fn legal_moves_spec(p: Parsed) -> Seq<(u8, u8)> {
    legal_upto(p, 63)
}

/// A move of the piece of the side to move on `m.0` that may end on `m.1`, both on the board.
pub open spec fn move_ok(p: Parsed, m: (u8, u8)) -> bool {
    &&& m.0 < 63
    &&& m.1 < 63
    &&& color_of(p.squares[m.0 as int]) == p.turn
    &&& lands(p, m.0 as int, m.1 as int)
}

proof fn lemma_jump_end_on_board(p: Parsed, f: int, r: int, d: int)
    ensures
        jump_end(p, f, r, d) matches Some(to) ==> 0 <= to < 63 && !is_water(to as u8),
    decreases edge_dist(f, r, d),
{
    if on_board(f, r) && is_water((r * 7 + f) as u8) && p.squares[r * 7 + f] == 0 {
        lemma_jump_end_on_board(p, f + dir_df(d), r + dir_dr(d), d);
    }
}

/// A generated move of the piece on `from`: it leaves `from`, ends on the board where the piece
/// may land, and ends in water only for a rat.
pub open spec fn land_ok(p: Parsed, from: int, m: (u8, u8)) -> bool {
    &&& m.0 == from
    &&& m.1 < 63
    &&& lands(p, from, m.1 as int)
    &&& (is_water(m.1) ==> role_of(p.squares[from]) == 1)
}

pub proof fn lemma_moves_from_ok(p: Parsed, from: int)
    requires
        0 <= from < 63,
    ensures
        forall|i: int| 0 <= i < moves_from_seq(p, from).len() ==> #[trigger] land_ok(p, from, moves_from_seq(p, from)[i]),
        moves_from_seq(p, from).len() <= 8,
{
    assert forall|d: int| 0 <= d <= 4 implies (forall|i: int|
        0 <= i < #[trigger] steps_upto(p, from, d).len() ==> land_ok(p, from, steps_upto(p, from, d)[i]))
        && steps_upto(p, from, d).len() <= d by {
        lemma_steps_ok(p, from, d);
    }
    assert forall|d: int, lo: int| 0 <= lo <= d <= 4 implies (forall|i: int|
        0 <= i < #[trigger] jumps_range(p, from, lo, d).len() ==> land_ok(p, from, jumps_range(p, from, lo, d)[i]))
        && jumps_range(p, from, lo, d).len() <= d - lo by {
        lemma_jumps_ok(p, from, lo, d);
    }
    let s = steps_upto(p, from, 4);
    let role = role_of(p.squares[from]);
    let j = if role == 7 {
        jumps_range(p, from, 0, 4)
    } else if role == 6 {
        jumps_range(p, from, 2, 4)
    } else {
        Seq::empty()
    };
    assert(moves_from_seq(p, from) == s + j);
    assert forall|i: int| 0 <= i < moves_from_seq(p, from).len() implies #[trigger] land_ok(
        p,
        from,
        moves_from_seq(p, from)[i],
    ) by {
        if i < s.len() {
            assert(moves_from_seq(p, from)[i] == s[i]);
        } else {
            assert(moves_from_seq(p, from)[i] == j[i - s.len()]);
        }
    }
}

proof fn lemma_steps_ok(p: Parsed, from: int, d: int)
    requires
        0 <= from < 63,
        0 <= d <= 4,
    ensures
        forall|i: int| 0 <= i < steps_upto(p, from, d).len() ==> #[trigger] land_ok(p, from, steps_upto(p, from, d)[i]),
        steps_upto(p, from, d).len() <= d,
    decreases d,
{
    if d > 0 {
        lemma_steps_ok(p, from, d - 1);
        let a = steps_upto(p, from, d - 1);
        let b = opt_seq(step_move(p, from, d - 1));
        assert(steps_upto(p, from, d) == a + b);
        assert forall|i: int| 0 <= i < steps_upto(p, from, d).len() implies #[trigger] land_ok(
            p,
            from,
            steps_upto(p, from, d)[i],
        ) by {
            if i < a.len() {
                assert(steps_upto(p, from, d)[i] == a[i]);
            } else {
                assert(steps_upto(p, from, d)[i] == b[i - a.len()]);
            }
        }
    }
}

proof fn lemma_jumps_ok(p: Parsed, from: int, lo: int, d: int)
    requires
        0 <= from < 63,
        0 <= lo <= d <= 4,
    ensures
        forall|i: int|
            0 <= i < jumps_range(p, from, lo, d).len() ==> #[trigger] land_ok(p, from, jumps_range(p, from, lo, d)[i]),
        jumps_range(p, from, lo, d).len() <= d - lo,
    decreases d - lo,
{
    if d > lo {
        lemma_jumps_ok(p, from, lo, d - 1);
        let a = jumps_range(p, from, lo, d - 1);
        let b = opt_seq(jump_move(p, from, d - 1));
        let nf = sq_file(from) + dir_df(d - 1);
        let nr = sq_rank(from) + dir_dr(d - 1);
        lemma_jump_end_on_board(p, nf, nr, d - 1);
        assert(jumps_range(p, from, lo, d) == a + b);
        assert forall|i: int| 0 <= i < jumps_range(p, from, lo, d).len() implies #[trigger] land_ok(
            p,
            from,
            jumps_range(p, from, lo, d)[i],
        ) by {
            if i < a.len() {
                assert(jumps_range(p, from, lo, d)[i] == a[i]);
            } else {
                assert(jumps_range(p, from, lo, d)[i] == b[i - a.len()]);
            }
        }
    }
}

/// Every generated move is a move of the side to move that may land where it goes, and the
/// moves come grouped by source square in increasing order.
pub proof fn lemma_legal_upto_ok(p: Parsed, k: int)
    requires
        0 <= k <= 63,
    ensures
        forall|i: int|
            0 <= i < legal_upto(p, k).len() ==> #[trigger] move_ok(p, legal_upto(p, k)[i])
                && legal_upto(p, k)[i].0 < k && land_ok(p, legal_upto(p, k)[i].0 as int, legal_upto(p, k)[i]),
        legal_upto(p, k).len() <= 8 * k,
    decreases k,
{
    if k > 0 {
        lemma_legal_upto_ok(p, k - 1);
        let a = legal_upto(p, k - 1);
        let b = if color_of(p.squares[k - 1]) == p.turn {
            moves_from_seq(p, k - 1)
        } else {
            Seq::empty()
        };
        lemma_moves_from_ok(p, k - 1);
        assert(legal_upto(p, k) == a + b);
        assert forall|i: int| 0 <= i < legal_upto(p, k).len() implies #[trigger] move_ok(
            p,
            legal_upto(p, k)[i],
        ) && legal_upto(p, k)[i].0 < k && land_ok(p, legal_upto(p, k)[i].0 as int, legal_upto(p, k)[i]) by {
            if i < a.len() {
                assert(legal_upto(p, k)[i] == a[i]);
            } else {
                assert(legal_upto(p, k)[i] == b[i - a.len()]);
                assert(land_ok(p, k - 1, b[i - a.len()]));
            }
        }
    }
}

proof fn lemma_jump_end_same(p: Parsed, q: Parsed, f: int, r: int, d: int)
    requires
        p.squares == q.squares,
    ensures
        jump_end(p, f, r, d) == jump_end(q, f, r, d),
    decreases edge_dist(f, r, d),
{
    if on_board(f, r) && is_water((r * 7 + f) as u8) && p.squares[r * 7 + f] == 0 {
        lemma_jump_end_same(p, q, f + dir_df(d), r + dir_dr(d), d);
    }
}

proof fn lemma_moves_from_same(p: Parsed, q: Parsed, from: int)
    requires
        p.squares == q.squares,
    ensures
        moves_from_seq(p, from) == moves_from_seq(q, from),
{
    assert forall|d: int| 0 <= d <= 4 implies #[trigger] steps_upto(p, from, d) == steps_upto(q, from, d) by {
        lemma_steps_same(p, q, from, d);
    }
    assert forall|lo: int, d: int| 0 <= lo <= d <= 4 implies #[trigger] jumps_range(p, from, lo, d) == jumps_range(
        q,
        from,
        lo,
        d,
    ) by {
        lemma_jumps_same(p, q, from, lo, d);
    }
}

proof fn lemma_steps_same(p: Parsed, q: Parsed, from: int, d: int)
    requires
        p.squares == q.squares,
    ensures
        steps_upto(p, from, d) == steps_upto(q, from, d),
    decreases d,
{
    if d > 0 {
        lemma_steps_same(p, q, from, d - 1);
        assert(step_move(p, from, d - 1) == step_move(q, from, d - 1));
    }
}

proof fn lemma_jumps_same(p: Parsed, q: Parsed, from: int, lo: int, d: int)
    requires
        p.squares == q.squares,
    ensures
        jumps_range(p, from, lo, d) == jumps_range(q, from, lo, d),
    decreases d - lo,
{
    if d > lo {
        lemma_jumps_same(p, q, from, lo, d - 1);
        let nf = sq_file(from) + dir_df(d - 1);
        let nr = sq_rank(from) + dir_dr(d - 1);
        lemma_jump_end_same(p, q, nf, nr, d - 1);
        assert(jump_move(p, from, d - 1) == jump_move(q, from, d - 1));
    }
}

proof fn lemma_legal_upto_same(p: Parsed, q: Parsed, k: int)
    requires
        p.squares == q.squares,
        p.turn == q.turn,
    ensures
        legal_upto(p, k) == legal_upto(q, k),
    decreases k,
{
    if k > 0 {
        lemma_legal_upto_same(p, q, k - 1);
        lemma_moves_from_same(p, q, k - 1);
    }
}

/// The legal moves of a position depend on its squares and side to move alone.
pub proof fn lemma_moves_same_board(p: Parsed, q: Parsed)
    requires
        p.squares@ == q.squares@,
        p.turn == q.turn,
    ensures
        legal_moves_spec(p) == legal_moves_spec(q),
{
    assert(p.squares =~= q.squares) by {
        broadcast use vstd::array::group_array_axioms;
        assert forall|s: int| 0 <= s < 63 implies p.squares[s] == q.squares[s] by {
            assert(p.squares@[s] == q.squares@[s]);
        }
    }
    lemma_legal_upto_same(p, q, 63);
}

/// Every legal move is a move of the side to move, between two board squares, that may land.
pub proof fn lemma_legal_moves_ok(p: Parsed)
    ensures
        forall|i: int|
            0 <= i < legal_moves_spec(p).len() ==> #[trigger] move_ok(p, legal_moves_spec(p)[i])
                && land_ok(p, legal_moves_spec(p)[i].0 as int, legal_moves_spec(p)[i]),
        legal_moves_spec(p).len() <= 504,
{
    lemma_legal_upto_ok(p, 63);
    let l = legal_upto(p, 63);
    assert(legal_moves_spec(p) == l);
    assert forall|i: int| 0 <= i < l.len() implies #[trigger] move_ok(p, l[i]) && land_ok(p, l[i].0 as int, l[i]) by {
        assert(move_ok(p, legal_upto(p, 63)[i]));
    }
}

// ── Moves backwards ─────────────────────────────────────────────────────────

/// The direction opposite `d`.
pub open spec fn opp_dir(d: int) -> int {
    if d == 0 {
        1
    } else if d == 1 {
        0
    } else if d == 2 {
        3
    } else {
        2
    }
}

pub(crate) proof fn lemma_sq_coords(s: int)
    requires
        0 <= s < 63,
    ensures
        on_board(sq_file(s), sq_rank(s)),
        s == sq_rank(s) * 7 + sq_file(s),
{
}

pub(crate) proof fn lemma_coords_sq(x: int, y: int)
    requires
        on_board(x, y),
    ensures
        sq_file(y * 7 + x) == x,
        sq_rank(y * 7 + x) == y,
        0 <= y * 7 + x < 63,
{
    vstd::arithmetic::div_mod::lemma_fundamental_div_mod_converse(y * 7 + x, 7, y, x);
}

/// A step of the piece on `f` to the empty square `t`, taken back: after it, the piece on `t`
/// steps back to `f` in the opposite direction.
proof fn lemma_step_back(u: Parsed, v: Parsed, f: int, d: int, t: int)
    requires
        0 <= f < 63,
        0 <= t < 63,
        0 <= d < 4,
        step_move(u, f, d) == Some((f as u8, t as u8)),
        u.squares[t] == 0,
        v.squares@ == crate::board::moved_squares(u.squares@, f, t),
        is_water(f as u8) ==> role_of(u.squares[f]) == 1,
        f != own_den(color_of(u.squares[f])) as int,
    ensures
        step_move(v, t, opp_dir(d)) == Some((t as u8, f as u8)),
{
    lemma_sq_coords(f);
    let x = sq_file(f);
    let y = sq_rank(f);
    let nx = x + dir_df(d);
    let ny = y + dir_dr(d);
    assert(on_board(nx, ny));
    lemma_coords_sq(nx, ny);
    assert(t == ny * 7 + nx);
    assert(v.squares[t] == v.squares@[t]);
    assert(v.squares[f] == v.squares@[f]);
    assert(v.squares[t] == u.squares[f]);
    assert(v.squares[f] == 0);
}

/// Walking a clear water run forwards from `(x, y)` in direction `d` and back again: where the
/// run ends, the square before it is water, and walking back from there in the opposite
/// direction reaches `s0` (where walking back from `(x, y)` reaches).
proof fn lemma_jump_back(p: Parsed, q: Parsed, x: int, y: int, d: int, s0: int) -> (r: (int, int))
    requires
        0 <= d < 4,
        on_board(x, y),
        is_water((y * 7 + x) as u8),
        q.squares[y * 7 + x] == 0,
        jump_end(q, x, y, opp_dir(d)) == Some(s0),
        forall|s: int| 0 <= s < 63 && is_water(s as u8) ==> #[trigger] p.squares[s] == q.squares[s],
    ensures
        jump_end(p, x + dir_df(d), y + dir_dr(d), d) is Some ==> {
            &&& on_board(r.0, r.1)
            &&& jump_end(p, x + dir_df(d), y + dir_dr(d), d) == Some(r.1 * 7 + r.0)
            &&& on_board(r.0 - dir_df(d), r.1 - dir_dr(d))
            &&& is_water(((r.1 - dir_dr(d)) * 7 + r.0 - dir_df(d)) as u8)
            &&& jump_end(q, r.0 - dir_df(d), r.1 - dir_dr(d), opp_dir(d)) == Some(s0)
        },
    decreases edge_dist(x + dir_df(d), y + dir_dr(d), d),
{
    let x1 = x + dir_df(d);
    let y1 = y + dir_dr(d);
    if !on_board(x1, y1) {
        (0, 0)
    } else if !is_water((y1 * 7 + x1) as u8) {
        (x1, y1)
    } else if p.squares[y1 * 7 + x1] != 0 {
        (0, 0)
    } else {
        assert(p.squares[y1 * 7 + x1] == q.squares[y1 * 7 + x1]);
        assert(x1 + dir_df(opp_dir(d)) == x && y1 + dir_dr(opp_dir(d)) == y);
        assert(jump_end(q, x1, y1, opp_dir(d)) == jump_end(q, x, y, opp_dir(d)));
        lemma_jump_back(p, q, x1, y1, d, s0)
    }
}

/// A river jump of the piece on the dry square `f` to `t`, taken back: after it, the piece on
/// `t` jumps back to `f` in the opposite direction.
proof fn lemma_jump_reverse(u: Parsed, v: Parsed, f: int, d: int, t: int)
    requires
        0 <= f < 63,
        0 <= t < 63,
        0 <= d < 4,
        jump_move(u, f, d) == Some((f as u8, t as u8)),
        u.squares[t] == 0,
        v.squares@ == crate::board::moved_squares(u.squares@, f, t),
        !is_water(f as u8),
        f != own_den(color_of(u.squares[f])) as int,
    ensures
        jump_move(v, t, opp_dir(d)) == Some((t as u8, f as u8)),
{
    lemma_sq_coords(f);
    let x = sq_file(f);
    let y = sq_rank(f);
    let nx = x + dir_df(d);
    let ny = y + dir_dr(d);
    assert(on_board(nx, ny) && is_water((ny * 7 + nx) as u8));
    lemma_coords_sq(nx, ny);
    let to = jump_end(u, nx, ny, d)->0;
    lemma_jump_end_on_board(u, nx, ny, d);
    assert(to == t);
    assert(!is_water(t as u8));
    assert forall|s: int| 0 <= s < 63 && is_water(s as u8) implies #[trigger] u.squares[s] == v.squares[s] by {
        assert(s != f && s != t);
        assert(v.squares[s] == v.squares@[s]);
    }
    assert(v.squares[t] == v.squares@[t]);
    assert(v.squares[f] == v.squares@[f]);
    assert(u.squares[ny * 7 + nx] == 0);
    assert(nx + dir_df(opp_dir(d)) == x && ny + dir_dr(opp_dir(d)) == y);
    assert(jump_end(v, x, y, opp_dir(d)) == Some(y * 7 + x));
    assert(jump_end(v, nx, ny, opp_dir(d)) == Some(f));
    let r = lemma_jump_back(u, v, nx, ny, d, f);
    assert(jump_end(u, nx, ny, d) == jump_end(u, nx + dir_df(d), ny + dir_dr(d), d));
    lemma_coords_sq(r.0, r.1);
    assert(t == r.1 * 7 + r.0);
    assert(v.squares[t] == u.squares[f]);
    assert(v.squares[f] == 0);
}

proof fn lemma_steps_contain(p: Parsed, from: int, d: int, e: int)
    requires
        0 <= e < d,
    ensures
        step_move(p, from, e) is Some ==> steps_upto(p, from, d).contains(step_move(p, from, e)->0),
    decreases d,
{
    if step_move(p, from, e) is Some {
        let m = step_move(p, from, e)->0;
        let a = steps_upto(p, from, d - 1);
        let b = opt_seq(step_move(p, from, d - 1));
        assert(steps_upto(p, from, d) == a + b);
        if e < d - 1 {
            lemma_steps_contain(p, from, d - 1, e);
            let i = choose|i: int| 0 <= i < a.len() && a[i] == m;
            assert((a + b)[i] == m);
        } else {
            assert((a + b)[a.len() as int] == m);
        }
    }
}

proof fn lemma_jumps_contain(p: Parsed, from: int, lo: int, d: int, e: int)
    requires
        lo <= e < d,
    ensures
        jump_move(p, from, e) is Some ==> jumps_range(p, from, lo, d).contains(jump_move(p, from, e)->0),
    decreases d - lo,
{
    if jump_move(p, from, e) is Some {
        let m = jump_move(p, from, e)->0;
        let a = jumps_range(p, from, lo, d - 1);
        let b = opt_seq(jump_move(p, from, d - 1));
        assert(jumps_range(p, from, lo, d) == a + b);
        if e < d - 1 {
            lemma_jumps_contain(p, from, lo, d - 1, e);
            let i = choose|i: int| 0 <= i < a.len() && a[i] == m;
            assert((a + b)[i] == m);
        } else {
            assert((a + b)[a.len() as int] == m);
        }
    }
}

proof fn lemma_steps_kind(p: Parsed, from: int, d: int, m: (u8, u8)) -> (e: int)
    requires
        steps_upto(p, from, d).contains(m),
    ensures
        0 <= e < d,
        step_move(p, from, e) == Some(m),
    decreases d,
{
    if d <= 0 {
        0
    } else {
        let a = steps_upto(p, from, d - 1);
        let b = opt_seq(step_move(p, from, d - 1));
        assert(steps_upto(p, from, d) == a + b);
        let i = choose|i: int| 0 <= i < (a + b).len() && (a + b)[i] == m;
        if i < a.len() {
            assert(a[i] == m);
            lemma_steps_kind(p, from, d - 1, m)
        } else {
            assert(b[i - a.len()] == m);
            d - 1
        }
    }
}

proof fn lemma_jumps_kind(p: Parsed, from: int, lo: int, d: int, m: (u8, u8)) -> (e: int)
    requires
        jumps_range(p, from, lo, d).contains(m),
    ensures
        lo <= e < d,
        jump_move(p, from, e) == Some(m),
    decreases d - lo,
{
    if d <= lo {
        lo
    } else {
        let a = jumps_range(p, from, lo, d - 1);
        let b = opt_seq(jump_move(p, from, d - 1));
        assert(jumps_range(p, from, lo, d) == a + b);
        let i = choose|i: int| 0 <= i < (a + b).len() && (a + b)[i] == m;
        if i < a.len() {
            assert(a[i] == m);
            lemma_jumps_kind(p, from, lo, d - 1, m)
        } else {
            assert(b[i - a.len()] == m);
            d - 1
        }
    }
}

/// A quiet move of a piece that stands where it may, taken back: the piece on its destination
/// has a move back to where it came from.
pub proof fn lemma_unmove(u: Parsed, v: Parsed, m: (u8, u8))
    requires
        m.0 < 63,
        m.1 < 63,
        moves_from_seq(u, m.0 as int).contains(m),
        u.squares[m.1 as int] == 0,
        v.squares@ == crate::board::moved_squares(u.squares@, m.0 as int, m.1 as int),
        is_water(m.0) ==> role_of(u.squares[m.0 as int]) == 1,
        m.0 != own_den(color_of(u.squares[m.0 as int])),
    ensures
        moves_from_seq(v, m.1 as int).contains((m.1, m.0)),
{
    let f = m.0 as int;
    let t = m.1 as int;
    let s = steps_upto(u, f, 4);
    let role = role_of(u.squares[f]);
    let j = if role == 7 {
        jumps_range(u, f, 0, 4)
    } else if role == 6 {
        jumps_range(u, f, 2, 4)
    } else {
        Seq::empty()
    };
    assert(moves_from_seq(u, f) == s + j);
    assert(v.squares[t] == v.squares@[t]);
    assert(v.squares[t] == u.squares[f]);
    let sv = steps_upto(v, t, 4);
    let jv = if role == 7 {
        jumps_range(v, t, 0, 4)
    } else if role == 6 {
        jumps_range(v, t, 2, 4)
    } else {
        Seq::empty()
    };
    assert(moves_from_seq(v, t) == sv + jv);
    let i = choose|i: int| 0 <= i < (s + j).len() && (s + j)[i] == m;
    if i < s.len() {
        assert(s[i] == m);
        assert(s.contains(m));
        let d = lemma_steps_kind(u, f, 4, m);
        lemma_step_back(u, v, f, d, t);
        lemma_steps_contain(v, t, 4, opp_dir(d));
        let k = choose|k: int| 0 <= k < sv.len() && sv[k] == (m.1, m.0);
        assert((sv + jv)[k] == (m.1, m.0));
    } else {
        assert(j[i - s.len()] == m);
        assert(j.contains(m));
        let lo: int = if role == 7 {
            0
        } else {
            2
        };
        let d = lemma_jumps_kind(u, f, lo, 4, m);
        lemma_jump_reverse(u, v, f, d, t);
        lemma_jumps_contain(v, t, lo, 4, opp_dir(d));
        let k = choose|k: int| 0 <= k < jv.len() && jv[k] == (m.1, m.0);
        assert((sv + jv)[sv.len() + k] == (m.1, m.0));
    }
}

/// A legal move is a move of a piece of the side to move, from where it stands.
pub proof fn lemma_legal_from(p: Parsed, m: (u8, u8))
    requires
        legal_moves_spec(p).contains(m),
    ensures
        m.0 < 63,
        color_of(p.squares[m.0 as int]) == p.turn,
        moves_from_seq(p, m.0 as int).contains(m),
{
    lemma_legal_upto_from(p, 63, m);
}

proof fn lemma_legal_upto_from(p: Parsed, k: int, m: (u8, u8))
    requires
        0 <= k <= 63,
        legal_upto(p, k).contains(m),
    ensures
        m.0 < 63,
        color_of(p.squares[m.0 as int]) == p.turn,
        moves_from_seq(p, m.0 as int).contains(m),
    decreases k,
{
    if k > 0 {
        let a = legal_upto(p, k - 1);
        let b = if color_of(p.squares[k - 1]) == p.turn {
            moves_from_seq(p, k - 1)
        } else {
            Seq::empty()
        };
        assert(legal_upto(p, k) == a + b);
        let i = choose|i: int| 0 <= i < (a + b).len() && (a + b)[i] == m;
        if i < a.len() {
            assert(a[i] == m);
            lemma_legal_upto_from(p, k - 1, m);
        } else {
            assert(b[i - a.len()] == m);
            lemma_moves_from_ok(p, k - 1);
            assert(land_ok(p, k - 1, b[i - a.len()]));
        }
    }
}

/// A move of a piece of the side to move is legal.
pub proof fn lemma_from_legal(p: Parsed, from: int, m: (u8, u8))
    requires
        0 <= from < 63,
        color_of(p.squares[from]) == p.turn,
        moves_from_seq(p, from).contains(m),
    ensures
        legal_moves_spec(p).contains(m),
{
    lemma_from_legal_upto(p, 63, from, m);
}

proof fn lemma_from_legal_upto(p: Parsed, k: int, from: int, m: (u8, u8))
    requires
        0 <= from < k <= 63,
        color_of(p.squares[from]) == p.turn,
        moves_from_seq(p, from).contains(m),
    ensures
        legal_upto(p, k).contains(m),
    decreases k,
{
    let a = legal_upto(p, k - 1);
    let b = if color_of(p.squares[k - 1]) == p.turn {
        moves_from_seq(p, k - 1)
    } else {
        Seq::empty()
    };
    assert(legal_upto(p, k) == a + b);
    if from < k - 1 {
        lemma_from_legal_upto(p, k - 1, from, m);
        let i = choose|i: int| 0 <= i < a.len() && a[i] == m;
        assert((a + b)[i] == m);
    } else {
        let i = choose|i: int| 0 <= i < b.len() && b[i] == m;
        assert((a + b)[a.len() + i] == m);
    }
}

/// `(tx, ty)` lies in direction `d` from `(x, y)`, at least `k` squares away.
pub open spec fn on_ray(x: int, y: int, d: int, tx: int, ty: int, k: int) -> bool {
    if d == 0 {
        ty == y && tx >= x + k
    } else if d == 1 {
        ty == y && tx <= x - k
    } else if d == 2 {
        tx == x && ty >= y + k
    } else {
        tx == x && ty <= y - k
    }
}

proof fn lemma_jump_end_ray(p: Parsed, x: int, y: int, d: int) -> (r: (int, int))
    requires
        0 <= d < 4,
    ensures
        jump_end(p, x, y, d) is Some ==> on_board(r.0, r.1) && jump_end(p, x, y, d) == Some(r.1 * 7 + r.0) && on_ray(
            x,
            y,
            d,
            r.0,
            r.1,
            0,
        ) && !is_water((r.1 * 7 + r.0) as u8),
    decreases edge_dist(x, y, d),
{
    if !on_board(x, y) {
        (0, 0)
    } else if !is_water((y * 7 + x) as u8) {
        (x, y)
    } else if p.squares[y * 7 + x] != 0 {
        (0, 0)
    } else {
        lemma_jump_end_ray(p, x + dir_df(d), y + dir_dr(d), d)
    }
}

/// Where a generated move of the piece on `from` ends: one square away in direction `e` for a
/// step, two or more for a jump.
proof fn lemma_move_dest(p: Parsed, from: int, e: int, m: (u8, u8), jump: bool)
    requires
        0 <= from < 63,
        0 <= e < 4,
        jump ==> jump_move(p, from, e) == Some(m),
        !jump ==> step_move(p, from, e) == Some(m),
    ensures
        m.1 < 63,
        on_board(sq_file(m.1 as int), sq_rank(m.1 as int)),
        on_ray(sq_file(from), sq_rank(from), e, sq_file(m.1 as int), sq_rank(m.1 as int), 1),
        jump ==> on_ray(sq_file(from), sq_rank(from), e, sq_file(m.1 as int), sq_rank(m.1 as int), 2),
        !jump ==> !on_ray(sq_file(from), sq_rank(from), e, sq_file(m.1 as int), sq_rank(m.1 as int), 2),
{
    lemma_sq_coords(from);
    let x = sq_file(from);
    let y = sq_rank(from);
    let nx = x + dir_df(e);
    let ny = y + dir_dr(e);
    if jump {
        lemma_coords_sq(nx, ny);
        let r = lemma_jump_end_ray(p, nx, ny, e);
        lemma_coords_sq(r.0, r.1);
        assert(r.1 * 7 + r.0 != ny * 7 + nx);
    } else {
        lemma_coords_sq(nx, ny);
    }
}

/// Rays in two directions share no square past their origin.
proof fn lemma_rays_apart(x: int, y: int, d1: int, d2: int, tx: int, ty: int)
    requires
        0 <= d1 < 4,
        0 <= d2 < 4,
        d1 != d2,
        on_ray(x, y, d1, tx, ty, 1),
    ensures
        !on_ray(x, y, d2, tx, ty, 1),
{
}

/// The moves of one piece end on distinct squares.
pub proof fn lemma_moves_from_distinct(p: Parsed, from: int)
    requires
        0 <= from < 63,
    ensures
        forall|i: int, k: int|
            0 <= i < k < moves_from_seq(p, from).len() ==> #[trigger] moves_from_seq(p, from)[i].1 != #[trigger] moves_from_seq(
                p,
                from,
            )[k].1,
{
    let s = steps_upto(p, from, 4);
    let role = role_of(p.squares[from]);
    let lo: int = if role == 7 {
        0
    } else {
        2
    };
    let j = if role == 7 || role == 6 {
        jumps_range(p, from, lo, 4)
    } else {
        Seq::empty()
    };
    assert(moves_from_seq(p, from) == s + j);
    let x = sq_file(from);
    let y = sq_rank(from);
    assert forall|i: int, k: int| 0 <= i < k < (s + j).len() implies #[trigger] (s + j)[i].1 != #[trigger] (s + j)[k].1 by {
        let mi = (s + j)[i];
        let mk = (s + j)[k];
        let (ei, ji) = if i < s.len() {
            assert(s[i] == mi);
            assert(s.contains(mi));
            (lemma_steps_kind(p, from, 4, mi), false)
        } else {
            assert(j[i - s.len()] == mi);
            assert(j.contains(mi));
            (lemma_jumps_kind(p, from, lo, 4, mi), true)
        };
        let (ek, jk) = if k < s.len() {
            assert(s[k] == mk);
            assert(s.contains(mk));
            (lemma_steps_kind(p, from, 4, mk), false)
        } else {
            assert(j[k - s.len()] == mk);
            assert(j.contains(mk));
            (lemma_jumps_kind(p, from, lo, 4, mk), true)
        };
        lemma_move_dest(p, from, ei, mi, ji);
        lemma_move_dest(p, from, ek, mk, jk);
        if mi.1 == mk.1 {
            if ei != ek {
                lemma_rays_apart(x, y, ei, ek, sq_file(mi.1 as int), sq_rank(mi.1 as int));
            } else if ji == jk {
                if ji {
                    lemma_jumps_index(p, from, lo, 4, i - s.len(), k - s.len());
                    let (e1, e2) = choose|e1: int, e2: int|
                        lo <= e1 < e2 < 4 && #[trigger] jump_move(p, from, e1) == Some(j[i - s.len()]) && #[trigger] jump_move(
                            p,
                            from,
                            e2,
                        ) == Some(j[k - s.len()]);
                    lemma_move_dest(p, from, e1, mi, true);
                    lemma_move_dest(p, from, e2, mk, true);
                    lemma_rays_apart(x, y, e1, e2, sq_file(mi.1 as int), sq_rank(mi.1 as int));
                } else {
                    lemma_steps_index(p, from, 4, i, k);
                    let (e1, e2) = choose|e1: int, e2: int|
                        0 <= e1 < e2 < 4 && #[trigger] step_move(p, from, e1) == Some(s[i]) && #[trigger] step_move(p, from, e2)
                            == Some(s[k]);
                    lemma_move_dest(p, from, e1, mi, false);
                    lemma_move_dest(p, from, e2, mk, false);
                    lemma_rays_apart(x, y, e1, e2, sq_file(mi.1 as int), sq_rank(mi.1 as int));
                }
            }
        }
    }
}

/// Two entries of the steps come from two directions.
proof fn lemma_steps_index(p: Parsed, from: int, d: int, i: int, k: int)
    requires
        0 <= i < k < steps_upto(p, from, d).len(),
    ensures
        exists|e1: int, e2: int|
            0 <= e1 < e2 < d && #[trigger] step_move(p, from, e1) == Some(steps_upto(p, from, d)[i]) && #[trigger] step_move(
                p,
                from,
                e2,
            ) == Some(steps_upto(p, from, d)[k]),
    decreases d,
{
    let a = steps_upto(p, from, d - 1);
    let b = opt_seq(step_move(p, from, d - 1));
    assert(steps_upto(p, from, d) == a + b);
    if k < a.len() {
        assert(a[i] == steps_upto(p, from, d)[i]);
        assert(a[k] == steps_upto(p, from, d)[k]);
        lemma_steps_index(p, from, d - 1, i, k);
    } else {
        assert(a[i] == steps_upto(p, from, d)[i]);
        assert(a.contains(a[i]));
        let e1 = lemma_steps_kind(p, from, d - 1, a[i]);
        assert(b[k - a.len()] == steps_upto(p, from, d)[k]);
    }
}

/// Two entries of the jumps come from two directions.
proof fn lemma_jumps_index(p: Parsed, from: int, lo: int, d: int, i: int, k: int)
    requires
        0 <= i < k < jumps_range(p, from, lo, d).len(),
    ensures
        exists|e1: int, e2: int|
            lo <= e1 < e2 < d && #[trigger] jump_move(p, from, e1) == Some(jumps_range(p, from, lo, d)[i]) && #[trigger] jump_move(
                p,
                from,
                e2,
            ) == Some(jumps_range(p, from, lo, d)[k]),
    decreases d - lo,
{
    let a = jumps_range(p, from, lo, d - 1);
    let b = opt_seq(jump_move(p, from, d - 1));
    assert(jumps_range(p, from, lo, d) == a + b);
    if k < a.len() {
        assert(a[i] == jumps_range(p, from, lo, d)[i]);
        assert(a[k] == jumps_range(p, from, lo, d)[k]);
        lemma_jumps_index(p, from, lo, d - 1, i, k);
    } else {
        assert(a[i] == jumps_range(p, from, lo, d)[i]);
        assert(a.contains(a[i]));
        let e1 = lemma_jumps_kind(p, from, lo, d - 1, a[i]);
        assert(b[k - a.len()] == jumps_range(p, from, lo, d)[k]);
    }
}

/// No legal move is generated twice.
pub proof fn lemma_legal_distinct(p: Parsed)
    ensures
        forall|i: int, k: int|
            0 <= i < k < legal_moves_spec(p).len() ==> #[trigger] legal_moves_spec(p)[i] != #[trigger] legal_moves_spec(p)[k],
{
    lemma_legal_upto_distinct(p, 63);
}

proof fn lemma_legal_upto_distinct(p: Parsed, n: int)
    requires
        0 <= n <= 63,
    ensures
        forall|i: int, k: int| 0 <= i < k < legal_upto(p, n).len() ==> #[trigger] legal_upto(p, n)[i] != #[trigger] legal_upto(p, n)[k],
    decreases n,
{
    if n > 0 {
        lemma_legal_upto_distinct(p, n - 1);
        lemma_legal_upto_ok(p, n - 1);
        lemma_moves_from_ok(p, n - 1);
        lemma_moves_from_distinct(p, n - 1);
        let a = legal_upto(p, n - 1);
        let b = if color_of(p.squares[n - 1]) == p.turn {
            moves_from_seq(p, n - 1)
        } else {
            Seq::empty()
        };
        assert(legal_upto(p, n) == a + b);
        assert forall|i: int, k: int| 0 <= i < k < (a + b).len() implies #[trigger] (a + b)[i] != #[trigger] (a + b)[k] by {
            if k < a.len() {
                assert(a[i] != a[k]);
            } else if i < a.len() {
                assert(move_ok(p, legal_upto(p, n - 1)[i]));
                assert(legal_upto(p, n - 1)[i].0 < n - 1);
                assert(land_ok(p, n - 1, b[k - a.len()]));
            } else {
                assert(b[i - a.len()].1 != b[k - a.len()].1);
            }
        }
    }
}

/// Exec direction steps.
fn dir_steps(d: usize) -> (r: (i32, i32))
    ensures
        r.0 == dir_df(d as int),
        r.1 == dir_dr(d as int),
{
    if d == 1 {
        (-1, 0)
    } else if d == 2 {
        (0, 1)
    } else if d == 3 {
        (0, -1)
    } else {
        (1, 0)
    }
}

/// Append `(from, to)` when the piece on `from` may end its move on `to`.
fn try_land(p: &Parsed, from: u8, to: u8, out: &mut Vec<(u8, u8)>)
    requires
        from < 63,
        to < 63,
    ensures
        final(out)@ == old(out)@ + if lands(*p, from as int, to as int) {
            seq![(from, to)]
        } else {
            Seq::<(u8, u8)>::empty()
        },
{
    let code = p.squares[from as usize];
    let me = color_of(code);
    let own = own_den(me);
    if to == own {
        return;
    }
    let tgt = p.squares[to as usize];
    if tgt == 0 {
        out.push((from, to));
    } else if color_of(tgt) != me && can_capture(code, from, tgt, to) {
        out.push((from, to));
    }
}

/// Append the moves of the piece on `from` (steps, then river jumps), in generation order.
pub fn moves_from(p: &Parsed, from: u8, out: &mut Vec<(u8, u8)>)
    requires
        from < 63,
    ensures
        final(out)@ == old(out)@ + moves_from_seq(*p, from as int),
{
    let code = p.squares[from as usize];
    let role = role_of(code);
    let f = (from as i32) % 7;
    let r = (from as i32) / 7;
    assert(f == sq_file(from as int) && r == sq_rank(from as int));

    // Orthogonal one-steps; only the rat may step onto water.
    let mut d: usize = 0;
    while d < 4
        invariant
            0 <= d <= 4,
            from < 63,
            f == sq_file(from as int),
            r == sq_rank(from as int),
            role == role_of(p.squares[from as int]),
            out@ == old(out)@ + steps_upto(*p, from as int, d as int),
        decreases 4 - d,
    {
        let (df, dr) = dir_steps(d);
        let nf = f + df;
        let nr = r + dr;
        if nf < 0 || nf >= 7 || nr < 0 || nr >= 9 {
            d += 1;
            continue;
        }
        let to = (nr * 7 + nf) as u8;
        if is_water(to) && role != 1 {
            d += 1;
            continue;
        }
        try_land(p, from, to, out);
        d += 1;
    }
    let ghost base = out@;
    assert(base == old(out)@ + steps_upto(*p, from as int, 4));

    // Lion (all four directions) and tiger (north and south) river jumps.
    if role == 7 || role == 6 {
        let lo: usize = if role == 7 {
            0
        } else {
            2
        };
        let mut d: usize = lo;
        while d < 4
            invariant
                lo <= d <= 4,
                lo == 0 || lo == 2,
                from < 63,
                f == sq_file(from as int),
                r == sq_rank(from as int),
                out@ == base + jumps_range(*p, from as int, lo as int, d as int),
            decreases 4 - d,
        {
            let (df, dr) = dir_steps(d);
            let mut nf = f + df;
            let mut nr = r + dr;
            if nf < 0 || nf >= 7 || nr < 0 || nr >= 9 || !is_water((nr * 7 + nf) as u8) {
                d += 1;
                continue;
            }
            let ghost start_f = nf as int;
            let ghost start_r = nr as int;
            let mut blocked = false;
            while nf >= 0 && nf < 7 && nr >= 0 && nr < 9 && is_water((nr * 7 + nf) as u8)
                invariant_except_break
                    !blocked,
                invariant
                    -1 <= nf <= 7,
                    -1 <= nr <= 9,
                    df == dir_df(d as int),
                    dr == dir_dr(d as int),
                    jump_end(*p, start_f, start_r, d as int) == jump_end(*p, nf as int, nr as int, d as int),
                ensures
                    blocked ==> jump_end(*p, nf as int, nr as int, d as int) is None,
                    !blocked ==> !on_board(nf as int, nr as int) || !is_water((nr * 7 + nf) as u8),
                decreases edge_dist(nf as int, nr as int, d as int),
            {
                if p.squares[(nr * 7 + nf) as usize] != 0 {
                    blocked = true;
                    break;
                }
                nf += df;
                nr += dr;
            }
            if blocked || nf < 0 || nf >= 7 || nr < 0 || nr >= 9 {
                d += 1;
                continue;
            }
            assert(jump_end(*p, start_f, start_r, d as int) == Some((nr * 7 + nf) as int));
            try_land(p, from, (nr * 7 + nf) as u8, out);
            d += 1;
        }
    }
}

/// All legal moves for the side to move, grouped by source square in increasing order, each
/// square's steps (east, west, north, south) before its river jumps.
pub fn legal_moves(p: &Parsed) -> (out: Vec<(u8, u8)>)
    ensures
        out@ == legal_moves_spec(*p),
{
    let mut out: Vec<(u8, u8)> = Vec::with_capacity(32);
    let mut idx: usize = 0;
    while idx < N
        invariant
            0 <= idx <= 63,
            out@ == legal_upto(*p, idx as int),
        decreases 63 - idx,
    {
        if color_of(p.squares[idx]) == p.turn {
            moves_from(p, idx as u8, &mut out);
        }
        idx += 1;
    }
    out
}

/// Are squares `a` and `b` orthogonal neighbours?
pub open spec fn adjacent(a: int, b: int) -> bool {
    let df = sq_file(a) - sq_file(b);
    let dr = sq_rank(a) - sq_rank(b);
    (if df < 0 {
        -df
    } else {
        df
    }) + (if dr < 0 {
        -dr
    } else {
        dr
    }) == 1
}

/// A tiger moves one square, or jumps the river along its file: every legal move of a tiger
/// that does not end on a neighbouring square keeps the tiger's file (only the lion may jump
/// along a rank).
pub proof fn lemma_tiger_jumps_keep_file(p: Parsed, m: (u8, u8))
    requires
        legal_moves_spec(p).contains(m),
        role_of(p.squares[m.0 as int]) == 6,
        !adjacent(m.0 as int, m.1 as int),
    ensures
        sq_file(m.0 as int) == sq_file(m.1 as int),
        sq_rank(m.0 as int) != sq_rank(m.1 as int),
{
    lemma_legal_from(p, m);
    let from = m.0 as int;
    let a = steps_upto(p, from, 4);
    let b = jumps_range(p, from, 2, 4);
    assert(moves_from_seq(p, from) == a + b);
    let i = choose|i: int| 0 <= i < (a + b).len() && (a + b)[i] == m;
    lemma_sq_coords(from);
    if i < a.len() {
        assert(a[i] == m);
        assert(a.contains(m));
        let e = lemma_steps_kind(p, from, 4, m);
        lemma_move_dest(p, from, e, m, false);
        lemma_sq_coords(m.1 as int);
        assert(adjacent(m.0 as int, m.1 as int));
    } else {
        assert(b[i - a.len()] == m);
        assert(b.contains(m));
        let e = lemma_jumps_kind(p, from, 2, 4, m);
        lemma_move_dest(p, from, e, m, true);
    }
}

/// River jumps are generated: a lion of the side to move may jump the water in any of the four
/// directions, and a tiger north or south, wherever the jump's path is clear and it may land.
pub proof fn lemma_river_jumps_legal(p: Parsed, from: int, e: int)
    requires
        0 <= from < 63,
        color_of(p.squares[from]) == p.turn,
        0 <= e < 4,
        role_of(p.squares[from]) == 7 || (role_of(p.squares[from]) == 6 && (e == 2 || e == 3)),
        jump_move(p, from, e) is Some,
    ensures
        legal_moves_spec(p).contains(jump_move(p, from, e)->0),
{
    let m = jump_move(p, from, e)->0;
    let a = steps_upto(p, from, 4);
    if role_of(p.squares[from]) == 7 {
        lemma_jumps_contain(p, from, 0, 4, e);
        let b = jumps_range(p, from, 0, 4);
        assert(moves_from_seq(p, from) == a + b);
        let i = choose|i: int| 0 <= i < b.len() && b[i] == m;
        assert((a + b)[a.len() + i] == m);
    } else {
        lemma_jumps_contain(p, from, 2, 4, e);
        let b = jumps_range(p, from, 2, 4);
        assert(moves_from_seq(p, from) == a + b);
        let i = choose|i: int| 0 <= i < b.len() && b[i] == m;
        assert((a + b)[a.len() + i] == m);
    }
    lemma_from_legal(p, from, m);
}

/// Only the lion and the tiger jump: every legal move of any other piece ends on a neighbouring
/// square.
pub proof fn lemma_others_step(p: Parsed, m: (u8, u8))
    requires
        legal_moves_spec(p).contains(m),
        role_of(p.squares[m.0 as int]) != 6,
        role_of(p.squares[m.0 as int]) != 7,
    ensures
        adjacent(m.0 as int, m.1 as int),
{
    lemma_legal_from(p, m);
    let from = m.0 as int;
    let a = steps_upto(p, from, 4);
    assert(moves_from_seq(p, from) == a + Seq::<(u8, u8)>::empty());
    assert(a + Seq::<(u8, u8)>::empty() == a);
    lemma_sq_coords(from);
    let e = lemma_steps_kind(p, from, 4, m);
    lemma_move_dest(p, from, e, m, false);
    lemma_sq_coords(m.1 as int);
}

} // verus!
