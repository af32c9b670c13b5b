use vstd::prelude::*;
use crate::board::{Parsed, role_of, color_of, trap_owner, opp_den, own_den, N};

verus! {

/// Material value of each role (index 1..8), in the doubled evaluation units.
const VAL: [i32; 9] = [0, 65, 22, 30, 40, 50, 75, 90, 100];

/// Material value of a role.
pub open spec fn role_value(role: u8) -> int {
    if role == 1 {
        65
    } else if role == 2 {
        22
    } else if role == 3 {
        30
    } else if role == 4 {
        40
    } else if role == 5 {
        50
    } else if role == 6 {
        75
    } else if role == 7 {
        90
    } else if role == 8 {
        100
    } else {
        0
    }
}

pub fn piece_value(role: u8) -> (v: i32)
    requires
        role <= 8,
    ensures
        v == role_value(role),
{
    VAL[role as usize]
}

pub open spec fn abs(x: int) -> int {
    if x < 0 {
        -x
    } else {
        x
    }
}

/// Manhattan distance between two squares.
pub open spec fn manhattan_spec(a: int, b: int) -> int {
    abs(a % 7 - b % 7) + abs(a / 7 - b / 7)
}

/// Manhattan distance between two squares.
pub fn manhattan(a: u8, b: u8) -> (d: i32)
    ensures
        d == manhattan_spec(a as int, b as int),
{
    let (af, ar) = ((a % 7) as i32, (a / 7) as i32);
    let (bf, br) = ((b % 7) as i32, (b / 7) as i32);
    let df = if af >= bf {
        af - bf
    } else {
        bf - af
    };
    let dr = if ar >= br {
        ar - br
    } else {
        br - ar
    };
    df + dr
}

/// Contribution of square `idx` to the evaluation, from the side to move's view: material
/// (doubled), advancement toward the den that matters for the piece (400 when adjacent, else
/// three per step under 16), and a piece on its enemy's trap counts against its owner.
pub open spec fn eval_term(p: Parsed, idx: int) -> int {
    let code = p.squares[idx];
    let me = p.turn;
    if code == 0 {
        0
    } else {
        let v = role_value(role_of(code));
        let friendly = color_of(code) == me;
        let target = if friendly {
            opp_den(me)
        } else {
            own_den(me)
        };
        let dist = manhattan_spec(idx, target as int);
        let advance = if dist <= 1 {
            400
        } else {
            (16 - dist) * 3
        };
        let tr = trap_owner(idx as u8);
        let trap = if friendly {
            if tr == 1 - me {
                -v
            } else {
                0
            }
        } else if tr == me {
            v
        } else {
            0
        };
        (if friendly {
            2 * v + advance
        } else {
            -2 * v - advance
        }) + trap
    }
}

/// Sum of the contributions of squares 0..k.
pub open spec fn eval_sum(p: Parsed, k: int) -> int
    decreases k,
{
    if k <= 0 {
        0
    } else {
        eval_sum(p, k - 1) + eval_term(p, k - 1)
    }
}

/// Largest magnitude of a handcrafted evaluation.
pub open spec fn eval_bound() -> int {
    44100int
}

/// Handcrafted evaluation from the side to move's view.
pub fn eval_hand(p: &Parsed) -> (s: i32)
    ensures
        s == eval_sum(*p, 63),
        -eval_bound() <= s <= eval_bound(),
{
    let me = p.turn;
    let enemy_den = opp_den(me);
    let home_den = own_den(me);
    let mut s: i32 = 0;
    let mut idx: usize = 0;
    while idx < N
        invariant
            0 <= idx <= 63,
            me == p.turn,
            enemy_den == opp_den(me),
            home_den == own_den(me),
            s == eval_sum(*p, idx as int),
            -700 * idx <= s <= 700 * idx,
        decreases 63 - idx,
    {
        let code = p.squares[idx];
        if code == 0 {
            idx += 1;
            continue;
        }
        let role = role_of(code);
        let v = piece_value(role);
        let friendly = color_of(code) == me;
        s += if friendly {
            2 * v
        } else {
            -2 * v
        };
        let target = if friendly {
            enemy_den
        } else {
            home_den
        };
        let dist = manhattan(idx as u8, target);
        assert(0 <= dist <= 14);
        let advance = if dist <= 1 {
            400
        } else {
            (16 - dist) * 3
        };
        s += if friendly {
            advance
        } else {
            -advance
        };
        let tr = trap_owner(idx as u8);
        if friendly {
            if tr == 1 - me {
                s -= v;
            }
        } else if tr == me {
            s += v;
        }
        idx += 1;
    }
    s
}

/// The handcrafted evaluation is from the side to move's view: on the same board, what it gives
/// one side is the negation of what it gives the other.
pub proof fn lemma_eval_turn_symmetry(p: Parsed, q: Parsed, k: int)
    requires
        p.squares@ == q.squares@,
        p.turn <= 1,
        q.turn == 1 - p.turn,
        0 <= k <= 63,
    ensures
        eval_sum(q, k) == -eval_sum(p, k),
    decreases k,
{
    if k > 0 {
        lemma_eval_turn_symmetry(p, q, k - 1);
        let i = k - 1;
        assert(p.squares[i] == p.squares@[i] && q.squares[i] == q.squares@[i]);
        assert(q.squares[i] == p.squares[i]);
        assert(eval_term(q, i) == -eval_term(p, i));
    }
}

/// Two positions with the same side to move whose boards differ only on squares `a` and `b`
/// have evaluations that differ by what those two squares contribute.
proof fn lemma_eval_two_squares(p: Parsed, q: Parsed, a: int, b: int, k: int)
    requires
        0 <= k <= 63,
        p.turn == q.turn,
        forall|i: int| 0 <= i < 63 && i != a && i != b ==> p.squares@[i] == q.squares@[i],
        a != b,
    ensures
        eval_sum(p, k) - eval_sum(q, k) == (if 0 <= a < k {
            eval_term(p, a) - eval_term(q, a)
        } else {
            0
        }) + (if 0 <= b < k {
            eval_term(p, b) - eval_term(q, b)
        } else {
            0
        }),
    decreases k,
{
    if k > 0 {
        lemma_eval_two_squares(p, q, a, b, k - 1);
        let i = k - 1;
        if i != a && i != b {
            assert(p.squares[i] == p.squares@[i] && q.squares[i] == q.squares@[i]);
            assert(eval_term(p, i) == eval_term(q, i));
        }
    }
}

/// The trap rule of the evaluation: an enemy piece on one of the side to move's traps is worth
/// its material value `v` more to the side to move than the same piece on a square that is not
/// such a trap and is as advanced toward the side to move's den (as far from it, or, like the
/// traps, within one step of it). Moved there (and nothing else changed), the evaluation rises by
/// exactly `v`.
pub proof fn lemma_enemy_on_own_trap(p: Parsed, q: Parsed, a: int, b: int)
    requires
        0 <= a < 63,
        0 <= b < 63,
        a != b,
        p.turn <= 1,
        q.turn == p.turn,
        forall|i: int| 0 <= i < 63 && i != a && i != b ==> p.squares@[i] == q.squares@[i],
        p.squares@[a] == 0,
        q.squares@[b] == 0,
        q.squares@[a] == p.squares@[b],
        p.squares@[b] != 0,
        color_of(p.squares@[b]) == 1 - p.turn,
        trap_owner(b as u8) == p.turn,
        trap_owner(a as u8) != p.turn,
        manhattan_spec(a, own_den(p.turn) as int) == manhattan_spec(b, own_den(p.turn) as int) || (manhattan_spec(
            a,
            own_den(p.turn) as int,
        ) <= 1 && manhattan_spec(b, own_den(p.turn) as int) <= 1),
    ensures
        eval_sum(p, 63) - eval_sum(q, 63) == role_value(role_of(p.squares@[b])),
{
    lemma_eval_two_squares(p, q, a, b, 63);
    assert(p.squares[a] == p.squares@[a] && q.squares[a] == q.squares@[a]);
    assert(p.squares[b] == p.squares@[b] && q.squares[b] == q.squares@[b]);
}

/// The trap rule, from the other side: a piece of the side to move on one of the enemy's traps
/// is worth its material value `v` less to the side to move than the same piece on a square that
/// is not such a trap and is as advanced toward the enemy den (as far from it, or within one step
/// of it). Moved there (and nothing else changed), the evaluation falls by exactly `v`.
pub proof fn lemma_own_on_enemy_trap(p: Parsed, q: Parsed, a: int, b: int)
    requires
        0 <= a < 63,
        0 <= b < 63,
        a != b,
        p.turn <= 1,
        q.turn == p.turn,
        forall|i: int| 0 <= i < 63 && i != a && i != b ==> p.squares@[i] == q.squares@[i],
        p.squares@[a] == 0,
        q.squares@[b] == 0,
        q.squares@[a] == p.squares@[b],
        p.squares@[b] != 0,
        color_of(p.squares@[b]) == p.turn,
        trap_owner(b as u8) == 1 - p.turn,
        trap_owner(a as u8) != 1 - p.turn,
        manhattan_spec(a, opp_den(p.turn) as int) == manhattan_spec(b, opp_den(p.turn) as int) || (manhattan_spec(
            a,
            opp_den(p.turn) as int,
        ) <= 1 && manhattan_spec(b, opp_den(p.turn) as int) <= 1),
    ensures
        eval_sum(q, 63) - eval_sum(p, 63) == role_value(role_of(p.squares@[b])),
{
    lemma_eval_two_squares(p, q, a, b, 63);
    assert(p.squares[a] == p.squares@[a] && q.squares[a] == q.squares@[a]);
    assert(p.squares[b] == p.squares@[b] && q.squares[b] == q.squares@[b]);
}

/// The trap rule, by exchanging one piece for another of the same colour on one square: off the
/// traps where a piece counts as rank 0, the evaluation counts twice the change of material
/// value; on such a trap (an enemy piece on a trap of the side to move, or a piece of the side to
/// move on an enemy trap) it counts only once.
pub proof fn lemma_trap_counts_material_once(p: Parsed, q: Parsed, b: int)
    requires
        0 <= b < 63,
        p.turn <= 1,
        q.turn == p.turn,
        forall|i: int| 0 <= i < 63 && i != b ==> p.squares@[i] == q.squares@[i],
        p.squares@[b] != 0,
        q.squares@[b] != 0,
        color_of(p.squares@[b]) == color_of(q.squares@[b]),
    ensures
        ({
            let dv = role_value(role_of(p.squares@[b])) - role_value(role_of(q.squares@[b]));
            let enemy = color_of(p.squares@[b]) != p.turn;
            let trapped = if enemy {
                trap_owner(b as u8) == p.turn
            } else {
                trap_owner(b as u8) == 1 - p.turn
            };
            &&& enemy && trapped ==> eval_sum(p, 63) - eval_sum(q, 63) == -dv
            &&& enemy && !trapped ==> eval_sum(p, 63) - eval_sum(q, 63) == -2 * dv
            &&& !enemy && trapped ==> eval_sum(p, 63) - eval_sum(q, 63) == dv
            &&& !enemy && !trapped ==> eval_sum(p, 63) - eval_sum(q, 63) == 2 * dv
        }),
{
    lemma_eval_two_squares(p, q, -1, b, 63);
    assert(p.squares[b] == p.squares@[b] && q.squares[b] == q.squares@[b]);
}

} // verus!
