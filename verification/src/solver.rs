use vstd::prelude::*;
use crate::board::{Parsed, Status, make_move, opp_den, color_of, N};
use crate::board;
use crate::movegen;
use crate::movegen::{legal_moves, moves_from};
use crate::status;
use crate::status::{status_of, color_has_pieces};
use crate::tablebase;
use crate::tablebase::{
    Store, material_key, material_sets, tb_pos, tb_index, TB_DRAW, TB_WIN, TB_LOSS,
};

verus! {

// ── What a solved table is ──────────────────────────────────────────────────

/// `c` is the position after the legal move `m` of `p`.
pub open spec fn is_child(p: Parsed, m: (u8, u8), c: Parsed) -> bool {
    &&& movegen::legal_moves_spec(p).contains(m)
    &&& c.squares@ == board::moved_squares(p.squares@, m.0 as int, m.1 as int)
    &&& c.turn == 1 - p.turn
    &&& c.progress == (if p.squares[m.1 as int] != 0 {
        0
    } else {
        p.progress + 1
    })
    &&& c.movenum == (if p.turn == 1 {
        p.movenum + 1
    } else {
        p.movenum as int
    })
}

/// Table value of a position that has ended, seen by its side to move.
pub open spec fn terminal_value(p: Parsed) -> u8 {
    match status::status_spec(p) {
        Status::Win(w) => if w == p.turn {
            TB_WIN
        } else {
            TB_LOSS
        },
        _ => TB_DRAW,
    }
}

/// Value of a position reached by a move, seen by its side to move: its status when the game
/// is over; else the entry of `t` when it keeps the material of `pieces`, or the entry of the
/// table of its (smaller) material in `st`.
pub open spec fn child_value(pieces: Seq<u8>, st: Map<Seq<u8>, Seq<u8>>, t: Seq<u8>, c: Parsed) -> u8 {
    match status::status_spec(c) {
        Status::Win(w) => if w == c.turn {
            TB_WIN
        } else {
            TB_LOSS
        },
        Status::Draw => TB_DRAW,
        Status::Playing => {
            let key = tablebase::material_spec(c.squares@);
            if key.len() == pieces.len() {
                t[tablebase::tb_index_spec(pieces, c)]
            } else {
                st[key][tablebase::tb_index_spec(key, c)]
            }
        },
    }
}

/// The game goes on from `c` with the material of `pieces`, so its value is read from the table
/// being solved.
pub open spec fn in_set(pieces: Seq<u8>, c: Parsed) -> bool {
    &&& status::status_spec(c) is Playing
    &&& tablebase::material_spec(c.squares@).len() == pieces.len()
}

/// When `c` is valued from the table being solved, its entry exists and was settled before
/// entry `i` (a lower rank).
pub open spec fn below(pieces: Seq<u8>, rank: Seq<nat>, i: int, c: Parsed) -> bool {
    in_set(pieces, c) ==> {
        let ci = tablebase::tb_index_spec(pieces, c);
        0 <= ci < rank.len() && rank[ci] < rank[i]
    }
}

/// `q` is the position of index `i` of the table of `pieces`.
pub open spec fn tb_board(pieces: Seq<u8>, i: int, q: Parsed) -> bool {
    &&& q.turn == i % 2
    &&& q.progress == 0
    &&& q.movenum == 1
    &&& q.squares@ == tablebase::placed_seq(pieces, i, pieces.len() as int)
}

/// The position of index `i` of the table of `pieces`.
pub open spec fn tb_position(pieces: Seq<u8>, i: int) -> Parsed {
    choose|q: Parsed| tb_board(pieces, i, q)
}

/// A win with a move to a position lost for the opponent, settled earlier.
pub open spec fn win_ok(pieces: Seq<u8>, st: Map<Seq<u8>, Seq<u8>>, t: Seq<u8>, rank: Seq<nat>, i: int, p: Parsed) -> bool {
    exists|m: (u8, u8), c: Parsed|
        #[trigger] is_child(p, m, c) && child_value(pieces, st, t, c) == TB_LOSS && below(pieces, rank, i, c)
}

/// A loss: every move leads to a position won for the opponent, each settled earlier.
pub open spec fn loss_ok(pieces: Seq<u8>, st: Map<Seq<u8>, Seq<u8>>, t: Seq<u8>, rank: Seq<nat>, i: int, p: Parsed) -> bool {
    forall|m: (u8, u8), c: Parsed|
        #[trigger] is_child(p, m, c) ==> child_value(pieces, st, t, c) == TB_WIN && below(pieces, rank, i, c)
}

/// A draw: no move wins, and some move does not lose.
pub open spec fn draw_ok(pieces: Seq<u8>, st: Map<Seq<u8>, Seq<u8>>, t: Seq<u8>, p: Parsed) -> bool {
    &&& forall|m: (u8, u8), c: Parsed| #[trigger] is_child(p, m, c) ==> child_value(pieces, st, t, c) != TB_LOSS
    &&& exists|m: (u8, u8), c: Parsed| #[trigger] is_child(p, m, c) && child_value(pieces, st, t, c) != TB_WIN
}

/// Entry `i` is a draw for an impossible placement, the result of a finished game, or a win or
/// loss justified by the entries settled before it.
pub open spec fn base_ok(pieces: Seq<u8>, st: Map<Seq<u8>, Seq<u8>>, t: Seq<u8>, rank: Seq<nat>, i: int) -> bool {
    let p = tb_position(pieces, i);
    if !tablebase::tb_valid(pieces, i) {
        t[i] == TB_DRAW
    } else if status::status_spec(p) is Win {
        t[i] == terminal_value(p)
    } else {
        &&& t[i] <= 2
        &&& t[i] == TB_WIN ==> win_ok(pieces, st, t, rank, i, p)
        &&& t[i] == TB_LOSS ==> loss_ok(pieces, st, t, rank, i, p)
    }
}

/// Entry `i` is settled as `base_ok` says, and a draw of a game in progress is a true draw.
pub open spec fn entry_ok(pieces: Seq<u8>, st: Map<Seq<u8>, Seq<u8>>, t: Seq<u8>, rank: Seq<nat>, i: int) -> bool {
    &&& base_ok(pieces, st, t, rank, i)
    &&& (tablebase::tb_valid(pieces, i) && !(status::status_spec(tb_position(pieces, i)) is Win) && t[i] == TB_DRAW)
        ==> draw_ok(pieces, st, t, tb_position(pieces, i))
}

/// `t`, with the settling order `rank`, meets `entry_ok` at every index.
pub open spec fn solved_with(pieces: Seq<u8>, st: Map<Seq<u8>, Seq<u8>>, t: Seq<u8>, rank: Seq<nat>) -> bool {
    &&& rank.len() == t.len()
    &&& forall|i: int| 0 <= i < t.len() ==> #[trigger] entry_ok(pieces, st, t, rank, i)
}

/// `t` is the solved win/draw/loss table of `pieces` (side to move's view) against the
/// sub-tables of `st`: one entry per index, each settled in some order (`rank`) from the
/// finished games and the entries settled before it, and every entry left a draw is one from
/// which neither side can force a result.
pub open spec fn is_solution(pieces: Seq<u8>, st: Map<Seq<u8>, Seq<u8>>, t: Seq<u8>) -> bool {
    &&& t.len() == tablebase::table_size(pieces.len())
    &&& exists|rank: Seq<nat>| #[trigger] solved_with(pieces, st, t, rank)
}

/// `st` holds, sized, every table that a capture can lead to from `pieces` while both sides keep
/// pieces.
pub open spec fn subtables_ready(pieces: Seq<u8>, st: Map<Seq<u8>, Seq<u8>>) -> bool {
    &&& tablebase::store_sized(st)
    &&& forall|j: int|
        0 <= j < pieces.len() && tablebase::both_colors(#[trigger] tablebase::sub_key(pieces, j)) ==> st.contains_key(
            tablebase::sub_key(pieces, j),
        )
}

/// Pieces whose tables can be built here: distinct codes, and a table that fits in memory's
/// index range.
pub open spec fn solvable(pieces: Seq<u8>) -> bool {
    &&& tablebase::distinct_codes(pieces)
    &&& tablebase::table_size(pieces.len()) <= usize::MAX
}

// ── Facts about table positions and their children ──────────────────────────

/// A board holding `s` on its first `n` squares.
spec fn fill_board(s: Seq<u8>, n: nat) -> [u8; 63]
    decreases n,
{
    if n == 0 {
        vstd::array::spec_array_fill_for_copy_type::<u8, 63>(0u8)
    } else {
        vstd::array::spec_array_update(fill_board(s, (n - 1) as nat), n - 1, s[n - 1])
    }
}

proof fn lemma_fill_board(s: Seq<u8>, n: nat)
    requires
        n <= 63,
    ensures
        forall|k: int| 0 <= k < n ==> #[trigger] fill_board(s, n)@[k] == s[k],
        fill_board(s, n)@.len() == 63,
    decreases n,
{
    broadcast use vstd::array::group_array_axioms;
    if n > 0 {
        lemma_fill_board(s, (n - 1) as nat);
        let a = fill_board(s, (n - 1) as nat);
        assert(fill_board(s, n)@ == a@.update(n - 1, s[n - 1]));
    } else {
        let a = fill_board(s, 0);
        assert(a@.len() == 63);
    }
}

/// Every index has a board.
proof fn lemma_board_exists(pieces: Seq<u8>, i: int)
    requires
        0 <= i,
    ensures
        exists|q: Parsed| tb_board(pieces, i, q),
{
    let s = tablebase::placed_seq(pieces, i, pieces.len() as int);
    lemma_fill_board(s, 63);
    let q = Parsed { squares: fill_board(s, 63), turn: (i % 2) as u8, progress: 0, movenum: 1 };
    assert(q.squares@ =~= s);
    assert(tb_board(pieces, i, q));
}

proof fn lemma_tb_position(pieces: Seq<u8>, i: int, q: Parsed)
    requires
        tb_board(pieces, i, q),
    ensures
        tb_position(pieces, i) == q,
{
    let q2 = tb_position(pieces, i);
    assert(tb_board(pieces, i, q2));
    assert(q2.squares =~= q.squares) by {
        broadcast use vstd::array::group_array_axioms;
        assert forall|s: int| 0 <= s < 63 implies q2.squares[s] == q.squares[s] by {
            assert(q2.squares@[s] == q.squares@[s]);
        }
    }
}

proof fn lemma_tb_pos_board(pieces: Seq<u8>, i: int, q: Parsed)
    requires
        q.turn == i % 2,
        q.progress == 0,
        q.movenum == 1,
        forall|s: int| 0 <= s < 63 ==> #[trigger] q.squares[s] == tablebase::placed(pieces, i, pieces.len() as int, s),
    ensures
        tb_board(pieces, i, q),
{
    assert(q.squares@ =~= tablebase::placed_seq(pieces, i, pieces.len() as int)) by {
        broadcast use vstd::array::group_array_axioms;
        assert forall|s: int| 0 <= s < 63 implies q.squares@[s] == tablebase::placed_seq(pieces, i, pieces.len() as int)[s] by {
            assert(q.squares[s] == tablebase::placed(pieces, i, pieces.len() as int, s));
        }
    }
}

proof fn lemma_child_unique(p: Parsed, m: (u8, u8), c1: Parsed, c2: Parsed)
    requires
        is_child(p, m, c1),
        is_child(p, m, c2),
    ensures
        c1 == c2,
{
    assert(c1.squares =~= c2.squares) by {
        broadcast use vstd::array::group_array_axioms;
        assert forall|s: int| 0 <= s < 63 implies c1.squares[s] == c2.squares[s] by {
            assert(c1.squares@[s] == c2.squares@[s]);
        }
    }
}

/// Facts about the board of a valid index of a distinct-code set.
proof fn lemma_board_facts(pieces: Seq<u8>, i: int, p: Parsed)
    requires
        tablebase::distinct_codes(pieces),
        tablebase::tb_valid(pieces, i),
        0 <= i,
        tb_board(pieces, i, p),
    ensures
        board::valid_position(p),
        forall|x: u8| 1 <= x ==> #[trigger] tablebase::count_code(p.squares@, x, 63) == (if pieces.contains(x) {
            1nat
        } else {
            0nat
        }),
{
    tablebase::lemma_tb_board_counts(pieces, i, p.squares@);
    assert forall|s: int| 0 <= s < 63 implies #[trigger] p.squares[s] <= 16 by {
        let x = p.squares@[s];
        if x > 16 {
            tablebase::lemma_piece_in_count(p.squares@, s, 63);
            assert(pieces.contains(x));
            let j = choose|j: int| 0 <= j < pieces.len() && pieces[j] == x;
        }
    }
}

/// A child of a table board: quiet moves stay in the set with an index inside the table;
/// a capture whose game goes on needs a sub-table with both colours.
proof fn lemma_child_facts(pieces: Seq<u8>, p: Parsed, m: (u8, u8), c: Parsed) -> (j: int)
    requires
        tablebase::distinct_codes(pieces),
        board::valid_position(p),
        forall|x: u8| 1 <= x ==> #[trigger] tablebase::count_code(p.squares@, x, 63) == (if pieces.contains(x) {
            1nat
        } else {
            0nat
        }),
        is_child(p, m, c),
    ensures
        board::valid_position(c),
        p.squares[m.1 as int] == 0 ==> tablebase::material_spec(c.squares@).len() == pieces.len()
            && tablebase::all_present(pieces, c) && 0 <= tablebase::tb_index_spec(pieces, c)
            < tablebase::table_size(pieces.len()),
        p.squares[m.1 as int] != 0 ==> 0 <= j < pieces.len() && tablebase::material_spec(c.squares@)
            == tablebase::sub_key(pieces, j) && tablebase::material_spec(c.squares@).len() + 1 == pieces.len(),
        p.squares[m.1 as int] != 0 && status::has_pieces(c, 0) && status::has_pieces(c, 1) ==> tablebase::both_colors(
            tablebase::sub_key(pieces, j),
        ),
{
    crate::search::lemma_legal_move_facts(p, m);
    board::lemma_make_move_valid(p, m, c);
    let j = tablebase::lemma_child_key(pieces, p.squares@, m.0 as int, m.1 as int, c);
    let cs = c.squares@;
    if p.squares[m.1 as int] == 0 {
        tablebase::lemma_tb_digits_bound(pieces, c, pieces.len() as int);
        assert(c.turn <= 1);
    } else {
        let x0 = p.squares@[m.1 as int];
        tablebase::lemma_sub_key(pieces, j);
        if status::has_pieces(c, 0) && status::has_pieces(c, 1) {
            let sk = tablebase::sub_key(pieces, j);
            let a = choose|i: int| 0 <= i < 63 && board::color_of(#[trigger] c.squares[i]) == 0;
            let b = choose|i: int| 0 <= i < 63 && board::color_of(#[trigger] c.squares[i]) == 1;
            let xa = cs[a];
            let xb = cs[b];
            tablebase::lemma_move_counts(p.squares@, m.0 as int, m.1 as int, xa);
            tablebase::lemma_move_counts(p.squares@, m.0 as int, m.1 as int, xb);
            tablebase::lemma_piece_in_count(cs, a, 63);
            tablebase::lemma_piece_in_count(cs, b, 63);
            assert(sk.contains(xa));
            assert(sk.contains(xb));
            let ia = choose|i: int| 0 <= i < sk.len() && sk[i] == xa;
            let ib = choose|i: int| 0 <= i < sk.len() && sk[i] == xb;
            assert(1 <= sk[ia] <= 8);
            assert(9 <= sk[ib] <= 16);
        }
    }
    j
}

// ── Reading a child's value ─────────────────────────────────────────────────

/// Value of a position reached by a move, seen by its side to move: terminal status first;
/// then the table being solved when the material is unchanged, else the sub-table of its
/// material in `store`.
fn child_wdl(child: &Parsed, cur: &[u8], cur_val: &Vec<u8>, store: &Store) -> (r: u8)
    requires
        board::valid_position(*child),
        cur_val@.len() == tablebase::table_size(cur@.len() as nat),
        tablebase::table_size(cur@.len() as nat) <= usize::MAX,
        tablebase::store_sized(store@),
        status::status_spec(*child) is Playing && tablebase::material_spec(child.squares@).len() == cur@.len()
            ==> tablebase::all_present(cur@, *child),
        status::status_spec(*child) is Playing && tablebase::material_spec(child.squares@).len() != cur@.len()
            ==> store@.contains_key(tablebase::material_spec(child.squares@)),
    ensures
        r == child_value(cur@, store@, cur_val@, *child),
{
    match status_of(child) {
        Status::Win(c) => {
            if c == child.turn {
                TB_WIN
            } else {
                TB_LOSS
            }
        },
        Status::Draw => TB_DRAW,
        Status::Playing => {
            let key = material_key(child);
            proof {
                tablebase::lemma_material_present(*child);
            }
            if key.len() == cur.len() {
                let i = tb_index(cur, child);
                cur_val[i]
            } else {
                let t = store.get(key.as_slice()).unwrap();
                let n = t.len();
                assert(tablebase::table_size(key@.len() as nat) == n);
                let i = tb_index(key.as_slice(), child);
                t[i]
            }
        },
    }
}

/// Number of entries of the table of a `k`-piece set.
fn table_len(k: usize) -> (n: usize)
    requires
        tablebase::table_size(k as nat) <= usize::MAX,
    ensures
        n == tablebase::table_size(k as nat),
{
    let mut n: usize = 2;
    let mut i: usize = 0;
    while i < k
        invariant
            0 <= i <= k,
            n == 2 * tablebase::pow63(i as nat),
            tablebase::table_size(k as nat) <= usize::MAX,
        decreases k - i,
    {
        proof {
            tablebase::lemma_pow63_mono((i + 1) as nat, k as nat);
        }
        n = n * 63;
        i += 1;
    }
    n
}

// ── Uniqueness of the solution ──────────────────────────────────────────────

proof fn lemma_agree(
    pieces: Seq<u8>,
    st: Map<Seq<u8>, Seq<u8>>,
    t1: Seq<u8>,
    r1: Seq<nat>,
    t2: Seq<u8>,
    r2: Seq<nat>,
    n: nat,
)
    requires
        t1.len() == t2.len(),
        r1.len() == t1.len(),
        r2.len() == t2.len(),
        forall|i: int| 0 <= i < t1.len() ==> #[trigger] entry_ok(pieces, st, t1, r1, i),
        forall|i: int| 0 <= i < t2.len() ==> #[trigger] entry_ok(pieces, st, t2, r2, i),
    ensures
        forall|i: int| 0 <= i < t1.len() && r1[i] < n && t1[i] != TB_DRAW ==> #[trigger] t2[i] == t1[i],
    decreases n,
{
    if n > 0 {
        lemma_agree(pieces, st, t1, r1, t2, r2, (n - 1) as nat);
        assert forall|x: int| 0 <= x < t1.len() && r1[x] < n && t1[x] != TB_DRAW implies #[trigger] t2[x] == t1[x] by {
            if r1[x] == n - 1 {
                assert(entry_ok(pieces, st, t1, r1, x));
                assert(entry_ok(pieces, st, t2, r2, x));
                let p = tb_position(pieces, x);
                if tablebase::tb_valid(pieces, x) && !(status::status_spec(p) is Win) {
                    if t1[x] == TB_WIN {
                        let (m, c) = choose|m: (u8, u8), c: Parsed|
                            #[trigger] is_child(p, m, c) && child_value(pieces, st, t1, c) == TB_LOSS && below(pieces, r1, x, c);
                        assert(child_value(pieces, st, t2, c) == TB_LOSS) by {
                            if in_set(pieces, c) {
                                let ci = tablebase::tb_index_spec(pieces, c);
                                assert(t2[ci] == t1[ci]);
                            }
                        }
                        assert(is_child(p, m, c));
                    } else {
                        assert(t1[x] == TB_LOSS);
                        assert forall|m: (u8, u8), c: Parsed| #[trigger] is_child(p, m, c) implies child_value(pieces, st, t2, c)
                            == TB_WIN by {
                            assert(child_value(pieces, st, t1, c) == TB_WIN && below(pieces, r1, x, c));
                            if in_set(pieces, c) {
                                let ci = tablebase::tb_index_spec(pieces, c);
                                assert(t2[ci] == t1[ci]);
                            }
                        }
                        if t2[x] == TB_DRAW {
                            let (m, c) = choose|m: (u8, u8), c: Parsed|
                                #[trigger] is_child(p, m, c) && child_value(pieces, st, t2, c) != TB_WIN;
                        } else if t2[x] == TB_WIN {
                            let (m, c) = choose|m: (u8, u8), c: Parsed|
                                #[trigger] is_child(p, m, c) && child_value(pieces, st, t2, c) == TB_LOSS && below(pieces, r2, x, c);
                        }
                    }
                }
            }
        }
    }
}

/// Law: a material set has one solved table. Any two tables that both solve `pieces` against
/// the same sub-tables are equal, entry for entry; so every solver that returns a solution
/// returns the same bytes.
pub proof fn lemma_solution_unique(pieces: Seq<u8>, st: Map<Seq<u8>, Seq<u8>>, t1: Seq<u8>, t2: Seq<u8>)
    requires
        is_solution(pieces, st, t1),
        is_solution(pieces, st, t2),
    ensures
        t1 == t2,
{
    let r1 = choose|rank: Seq<nat>| #[trigger] solved_with(pieces, st, t1, rank);
    let r2 = choose|rank: Seq<nat>| #[trigger] solved_with(pieces, st, t2, rank);
    assert forall|i: int| 0 <= i < t1.len() implies t1[i] == t2[i] by {
        if t1[i] != TB_DRAW {
            lemma_agree(pieces, st, t1, r1, t2, r2, (r1[i] + 1) as nat);
        } else if t2[i] != TB_DRAW {
            lemma_agree(pieces, st, t2, r2, t1, r1, (r2[i] + 1) as nat);
        }
    }
    assert(t1 =~= t2);
}

// ── The fixpoint solver ─────────────────────────────────────────────────────

/// Index `i` is a game in progress whose entry is still undecided.
pub open spec fn pending(pieces: Seq<u8>, t: Seq<u8>, i: int) -> bool {
    &&& tablebase::tb_valid(pieces, i)
    &&& !(status::status_spec(tb_position(pieces, i)) is Win)
    &&& t[i] == TB_DRAW
}

/// Ascending indices.
pub open spec fn ascending(s: Seq<usize>) -> bool {
    forall|a: int, b: int| 0 <= a < b < s.len() ==> #[trigger] s[a] < #[trigger] s[b]
}

/// Settling an undecided entry `u` keeps every other entry's justification.
proof fn lemma_base_keep(
    pieces: Seq<u8>,
    st: Map<Seq<u8>, Seq<u8>>,
    t: Seq<u8>,
    rank: Seq<nat>,
    i: int,
    u: int,
    v: u8,
    s: nat,
)
    requires
        0 <= u < t.len(),
        rank.len() == t.len(),
        t[u] == TB_DRAW,
        0 <= i < t.len(),
        i != u,
        base_ok(pieces, st, t, rank, i),
    ensures
        base_ok(pieces, st, t.update(u, v), rank.update(u, s), i),
{
    let t2 = t.update(u, v);
    let r2 = rank.update(u, s);
    let p = tb_position(pieces, i);
    if tablebase::tb_valid(pieces, i) && !(status::status_spec(p) is Win) {
        if t[i] == TB_WIN {
            let (m, c) = choose|m: (u8, u8), c: Parsed|
                #[trigger] is_child(p, m, c) && child_value(pieces, st, t, c) == TB_LOSS && below(pieces, rank, i, c);
            if in_set(pieces, c) {
                let ci = tablebase::tb_index_spec(pieces, c);
                assert(t[ci] == TB_LOSS);
                assert(ci != u);
                assert(t2[ci] == t[ci]);
                assert(r2[ci] == rank[ci]);
            }
            assert(child_value(pieces, st, t2, c) == child_value(pieces, st, t, c));
            assert(r2[i] == rank[i]);
            assert(below(pieces, r2, i, c));
            assert(is_child(p, m, c));
        }
        if t[i] == TB_LOSS {
            assert forall|m: (u8, u8), c: Parsed| #[trigger] is_child(p, m, c) implies child_value(pieces, st, t2, c)
                == TB_WIN && below(pieces, r2, i, c) by {
                assert(child_value(pieces, st, t, c) == TB_WIN && below(pieces, rank, i, c));
                if in_set(pieces, c) {
                    let ci = tablebase::tb_index_spec(pieces, c);
                    assert(t[ci] == TB_WIN);
                    assert(ci != u);
                    assert(t2[ci] == t[ci]);
                    assert(r2[ci] == rank[ci]);
                }
                assert(r2[i] == rank[i]);
                assert(child_value(pieces, st, t2, c) == child_value(pieces, st, t, c));
            }
        }
    }
}

/// Solves one material set by repeated passes over the undecided positions: a position becomes
/// a win once a move hands the opponent a loss, a loss once every move hands the opponent a win
/// (stalemate is already a finished loss); when a pass settles nothing, the positions left are
/// draws. Captures are read from the sub-tables in `store`.
pub fn solve_set(pieces: &[u8], store: &Store) -> (val: Vec<u8>)
    requires
        solvable(pieces@),
        subtables_ready(pieces@, store@),
    ensures
        is_solution(pieces@, store@, val@),
        val@ == solution(pieces@, store@),
{
    let size = table_len(pieces.len());
    let mut val: Vec<u8> = vec![TB_DRAW; size];
    let mut unknown: Vec<usize> = Vec::new();
    let ghost mut rank: Seq<nat> = Seq::new(size as nat, |i: int| 0nat);
    let ghost mut step: nat = 1;
    let mut idx: usize = 0;
    while idx < size
        invariant
            0 <= idx <= size,
            size == tablebase::table_size(pieces@.len()),
            solvable(pieces@),
            subtables_ready(pieces@, store@),
            val@.len() == size,
            rank == Seq::new(size as nat, |i: int| 0nat),
            step == 1,
            forall|i: int| idx <= i < size ==> val@[i] == TB_DRAW,
            forall|i: int| 0 <= i < idx ==> #[trigger] base_ok(pieces@, store@, val@, rank, i),
            forall|i: int| 0 <= i < size && val@[i] != TB_DRAW ==> rank[i] < step,
            forall|i: int| 0 <= i < idx && #[trigger] pending(pieces@, val@, i) ==> unknown@.contains(i as usize),
            forall|j: int|
                0 <= j < unknown@.len() ==> (#[trigger] unknown@[j] as int) < idx && pending(pieces@, val@, unknown@[j] as int),
            ascending(unknown@),
        decreases size - idx,
    {
        match tb_pos(pieces, idx) {
            Some(p) => {
                proof {
                    lemma_tb_pos_board(pieces@, idx as int, p);
                    lemma_tb_position(pieces@, idx as int, p);
                    lemma_board_facts(pieces@, idx as int, p);
                }
                match status_of(&p) {
                    Status::Win(c) => {
                        let v = if c == p.turn {
                            TB_WIN
                        } else {
                            TB_LOSS
                        };
                        let ghost old_val = val@;
                        val.set(idx, v);
                        proof {
                            assert(rank.update(idx as int, 0) =~= rank);
                            assert forall|i: int| 0 <= i < idx implies #[trigger] base_ok(pieces@, store@, val@, rank, i) by {
                                lemma_base_keep(pieces@, store@, old_val, rank, i, idx as int, v, 0);
                            }
                            assert(base_ok(pieces@, store@, val@, rank, idx as int));
                            assert forall|i: int| 0 <= i < idx + 1 && #[trigger] pending(pieces@, val@, i) implies unknown@.contains(i as usize) by {
                                assert(pending(pieces@, old_val, i));
                            }
                            assert forall|j: int| 0 <= j < unknown@.len() implies (#[trigger] unknown@[j] as int) < idx + 1 && pending(pieces@, val@, unknown@[j] as int) by {
                                assert(pending(pieces@, old_val, unknown@[j] as int));
                            }
                        }
                    },
                    _ => {
                        let ghost old_unknown = unknown@;
                        unknown.push(idx);
                        proof {
                            assert(pending(pieces@, val@, idx as int));
                            assert(unknown@[old_unknown.len() as int] == idx);
                            assert forall|i: int| 0 <= i < idx + 1 && #[trigger] pending(pieces@, val@, i) implies unknown@.contains(i as usize) by {
                                if i < idx {
                                    let a = choose|a: int| 0 <= a < old_unknown.len() && old_unknown[a] == i as usize;
                                    assert(unknown@[a] == i as usize);
                                }
                            }
                            assert forall|j: int| 0 <= j < unknown@.len() implies (#[trigger] unknown@[j] as int) < idx + 1 && pending(pieces@, val@, unknown@[j] as int) by {
                                if j < old_unknown.len() {
                                    assert(unknown@[j] == old_unknown[j]);
                                }
                            }
                            assert forall|a: int, b: int| 0 <= a < b < unknown@.len() implies #[trigger] unknown@[a] < #[trigger] unknown@[b] by {
                                if b < old_unknown.len() {
                                    assert(unknown@[a] == old_unknown[a]);
                                    assert(unknown@[b] == old_unknown[b]);
                                } else {
                                    assert(unknown@[a] == old_unknown[a]);
                                }
                            }
                        }
                    },
                }
            },
            None => {},
        }
        idx += 1;
    }
    loop
        invariant
            size == tablebase::table_size(pieces@.len()),
            solvable(pieces@),
            subtables_ready(pieces@, store@),
            val@.len() == size,
            rank.len() == size,
            forall|i: int| 0 <= i < size ==> #[trigger] base_ok(pieces@, store@, val@, rank, i),
            forall|i: int| 0 <= i < size && val@[i] != TB_DRAW ==> rank[i] < step,
            forall|i: int| 0 <= i < size && #[trigger] pending(pieces@, val@, i) ==> unknown@.contains(i as usize),
            forall|j: int|
                0 <= j < unknown@.len() ==> (#[trigger] unknown@[j] as int) < size && pending(pieces@, val@, unknown@[j] as int),
            ascending(unknown@),
        ensures
            forall|i: int| 0 <= i < size ==> #[trigger] base_ok(pieces@, store@, val@, rank, i),
            forall|i: int|
                0 <= i < size && #[trigger] pending(pieces@, val@, i) ==> draw_ok(pieces@, store@, val@, tb_position(pieces@, i)),
        decreases unknown@.len(),
    {
        let mut still: Vec<usize> = Vec::new();
        let mut changed = false;
        let ghost v0 = val@;
        let mut k: usize = 0;
        while k < unknown.len()
            invariant
                size == tablebase::table_size(pieces@.len()),
                solvable(pieces@),
                subtables_ready(pieces@, store@),
                val@.len() == size,
                rank.len() == size,
                0 <= k <= unknown@.len(),
                forall|i: int| 0 <= i < size ==> #[trigger] base_ok(pieces@, store@, val@, rank, i),
                forall|i: int| 0 <= i < size && val@[i] != TB_DRAW ==> rank[i] < step,
                forall|i: int| 0 <= i < size && #[trigger] pending(pieces@, val@, i) ==> unknown@.contains(i as usize),
                forall|j: int| 0 <= j < unknown@.len() ==> (#[trigger] unknown@[j] as int) < size,
                forall|j: int| k <= j < unknown@.len() ==> pending(pieces@, val@, #[trigger] unknown@[j] as int),
                ascending(unknown@),
                ascending(still@),
                forall|j: int| 0 <= j < still@.len() ==> exists|jj: int| 0 <= jj < k && #[trigger] unknown@[jj] == #[trigger] still@[j],
                forall|j: int| 0 <= j < still@.len() ==> pending(pieces@, val@, #[trigger] still@[j] as int),
                forall|jj: int| 0 <= jj < k && pending(pieces@, val@, #[trigger] unknown@[jj] as int) ==> still@.contains(unknown@[jj]),
                !changed ==> val@ == v0,
                !changed ==> forall|j: int| 0 <= j < still@.len() ==> draw_ok(pieces@, store@, v0, tb_position(pieces@, #[trigger] still@[j] as int)),
                still@.len() + (if changed { 1int } else { 0int }) <= k,
            decreases unknown@.len() - k,
        {
            let u = unknown[k];
            assert(pending(pieces@, val@, unknown@[k as int] as int));
            let p = tb_pos(pieces, u).unwrap();
            proof {
                lemma_tb_pos_board(pieces@, u as int, p);
                lemma_tb_position(pieces@, u as int, p);
                lemma_board_facts(pieces@, u as int, p);
            }
            let moves = legal_moves(&p);
            let mut found_win = false;
            let mut all_win = true;
            let ghost mut wm: (u8, u8) = (0, 0);
            let ghost mut wc: Parsed = p;
            let mut j: usize = 0;
            while j < moves.len()
                invariant_except_break
                    !found_win,
                invariant
                    0 <= j <= moves@.len(),
                    moves@ == movegen::legal_moves_spec(p),
                    solvable(pieces@),
                    subtables_ready(pieces@, store@),
                    val@.len() == tablebase::table_size(pieces@.len()),
                    board::valid_position(p),
                    p.progress == 0,
                    p.movenum == 1,
                    forall|x: u8| 1 <= x ==> #[trigger] tablebase::count_code(p.squares@, x, 63) == (if pieces@.contains(x) {
                        1nat
                    } else {
                        0nat
                    }),
                    forall|jj: int, c: Parsed|
                        0 <= jj < j && #[trigger] is_child(p, moves@[jj], c) ==> child_value(pieces@, store@, val@, c) != TB_LOSS,
                    all_win ==> forall|jj: int, c: Parsed|
                        0 <= jj < j && #[trigger] is_child(p, moves@[jj], c) ==> child_value(pieces@, store@, val@, c) == TB_WIN,
                    !all_win ==> is_child(p, wm, wc) && child_value(pieces@, store@, val@, wc) != TB_WIN,
                ensures
                    found_win ==> is_child(p, wm, wc) && child_value(pieces@, store@, val@, wc) == TB_LOSS,
                    !found_win ==> j == moves@.len(),
                decreases moves@.len() - j,
            {
                let m = moves[j];
                proof {
                    assert(moves@.contains(m));
                    crate::search::lemma_legal_move_facts(p, m);
                }
                let child = make_move(&p, m);
                proof {
                    assert(is_child(p, m, child));
                    let jx = lemma_child_facts(pieces@, p, m, child);
                }
                let cval = child_wdl(&child, pieces, &val, store);
                proof {
                    assert forall|c: Parsed| #[trigger] is_child(p, m, c) implies c == child by {
                        lemma_child_unique(p, m, c, child);
                    }
                }
                if cval == TB_LOSS {
                    found_win = true;
                    proof {
                        wm = m;
                        wc = child;
                    }
                    break;
                }
                if cval != TB_WIN {
                    all_win = false;
                    proof {
                        wm = m;
                        wc = child;
                    }
                }
                j += 1;
            }
            if found_win || all_win {
                let v = if found_win {
                    TB_WIN
                } else {
                    TB_LOSS
                };
                let ghost old_val = val@;
                let ghost old_rank = rank;
                val.set(u, v);
                proof {
                    rank = rank.update(u as int, step);
                    assert forall|i: int| 0 <= i < size && i != u implies #[trigger] base_ok(pieces@, store@, val@, rank, i) by {
                        lemma_base_keep(pieces@, store@, old_val, old_rank, i, u as int, v, step);
                    }
                    if found_win {
                        let jx = lemma_child_facts(pieces@, p, wm, wc);
                        assert(child_value(pieces@, store@, val@, wc) == TB_LOSS && below(pieces@, rank, u as int, wc));
                        assert(win_ok(pieces@, store@, val@, rank, u as int, p));
                    } else {
                        assert forall|m: (u8, u8), c: Parsed| #[trigger] is_child(p, m, c) implies child_value(pieces@, store@, val@, c)
                            == TB_WIN && below(pieces@, rank, u as int, c) by {
                            let jj = choose|jj: int| 0 <= jj < moves@.len() && moves@[jj] == m;
                            assert(is_child(p, moves@[jj], c));
                            let jx = lemma_child_facts(pieces@, p, m, c);
                        }
                    }
                    assert(base_ok(pieces@, store@, val@, rank, u as int));
                    step = step + 1;
                    assert forall|i: int| 0 <= i < size && #[trigger] pending(pieces@, val@, i) implies unknown@.contains(i as usize) by {
                        assert(pending(pieces@, old_val, i));
                    }
                    assert forall|jj: int| k + 1 <= jj < unknown@.len() implies pending(pieces@, val@, #[trigger] unknown@[jj] as int) by {
                        assert(pending(pieces@, old_val, unknown@[jj] as int));
                        assert(unknown@[k as int] < unknown@[jj]);
                    }
                    assert forall|a: int| 0 <= a < still@.len() implies pending(pieces@, val@, #[trigger] still@[a] as int) by {
                        assert(pending(pieces@, old_val, still@[a] as int));
                        let jj = choose|jj: int| 0 <= jj < k && #[trigger] unknown@[jj] == #[trigger] still@[a];
                        assert(unknown@[jj] < unknown@[k as int]);
                    }
                    assert forall|jj: int| 0 <= jj < k + 1 && pending(pieces@, val@, #[trigger] unknown@[jj] as int) implies still@.contains(
                        unknown@[jj],
                    ) by {
                        assert(pending(pieces@, old_val, unknown@[jj] as int));
                    }
                }
                changed = true;
            } else {
                proof {
                    if !changed {
                        assert forall|m: (u8, u8), c: Parsed| #[trigger] is_child(p, m, c) implies child_value(pieces@, store@, val@, c)
                            != TB_LOSS by {
                            let jj = choose|jj: int| 0 <= jj < moves@.len() && moves@[jj] == m;
                            assert(is_child(p, moves@[jj], c));
                        }
                        assert(is_child(p, wm, wc));
                        assert(draw_ok(pieces@, store@, v0, p));
                    }
                }
                let ghost old_still = still@;
                still.push(u);
                proof {
                    assert forall|a: int| 0 <= a < still@.len() implies exists|jj: int| 0 <= jj < k + 1 && #[trigger] unknown@[jj] == #[trigger] still@[a] by {
                        if a < old_still.len() {
                            assert(still@[a] == old_still[a]);
                        } else {
                            assert(unknown@[k as int] == still@[a]);
                        }
                    }
                    assert forall|a: int, b: int| 0 <= a < b < still@.len() implies #[trigger] still@[a] < #[trigger] still@[b] by {
                        if b == old_still.len() {
                            let jj = choose|jj: int| 0 <= jj < k && #[trigger] unknown@[jj] == #[trigger] old_still[a];
                        }
                    }
                    assert(still@[old_still.len() as int] == u);
                    assert(still@.contains(u));
                    assert forall|jj: int| 0 <= jj < k + 1 && pending(pieces@, val@, #[trigger] unknown@[jj] as int) implies still@.contains(unknown@[jj]) by {
                        if jj < k {
                            let a = choose|a: int| 0 <= a < old_still.len() && old_still[a] == unknown@[jj];
                            assert(still@[a] == unknown@[jj]);
                        }
                    }
                }
            }
            k += 1;
        }
        if !changed {
            proof {
                assert forall|i: int| 0 <= i < size && #[trigger] pending(pieces@, val@, i) implies draw_ok(
                    pieces@,
                    store@,
                    val@,
                    tb_position(pieces@, i),
                ) by {
                    let jj = choose|jj: int| 0 <= jj < unknown@.len() && unknown@[jj] == i as usize;
                    assert(pending(pieces@, val@, unknown@[jj] as int));
                    let a = choose|a: int| 0 <= a < still@.len() && still@[a] == unknown@[jj];
                    assert(draw_ok(pieces@, store@, v0, tb_position(pieces@, still@[a] as int)));
                }
            }
            break;
        }
        unknown = still;
    }
    proof {
        assert forall|i: int| 0 <= i < val@.len() implies #[trigger] entry_ok(pieces@, store@, val@, rank, i) by {
            assert(base_ok(pieces@, store@, val@, rank, i));
            if tablebase::tb_valid(pieces@, i) && !(status::status_spec(tb_position(pieces@, i)) is Win) && val@[i] == TB_DRAW {
                assert(pending(pieces@, val@, i));
            }
        }
        assert(solved_with(pieces@, store@, val@, rank));
        lemma_is_the_solution(pieces@, store@, val@);
    }
    val
}

// ── The retrograde solvers ──────────────────────────────────────────────────

/// What every solver keeps: one entry per index; impossible placements are draws, finished
/// games carry their result, and every entry is a win, draw or loss.
pub open spec fn frame_ok(pieces: Seq<u8>, t: Seq<u8>, i: int) -> bool {
    &&& t[i] <= 2
    &&& !tablebase::tb_valid(pieces, i) ==> t[i] == TB_DRAW
    &&& tablebase::tb_valid(pieces, i) && status::status_spec(tb_position(pieces, i)) is Win ==> t[i] == terminal_value(
        tb_position(pieces, i),
    )
}

/// Number of draw entries among the first `n`.
pub open spec fn draw_count(t: Seq<u8>, n: int) -> nat
    decreases n,
{
    if n <= 0 {
        0
    } else {
        draw_count(t, n - 1) + if t[n - 1] == TB_DRAW {
            1nat
        } else {
            0nat
        }
    }
}

proof fn lemma_draw_count_settle(t: Seq<u8>, u: int, v: u8, n: int)
    requires
        0 <= u < t.len(),
        0 <= n <= t.len(),
        t[u] == TB_DRAW,
        v != TB_DRAW,
    ensures
        draw_count(t.update(u, v), n) + (if u < n {
            1int
        } else {
            0int
        }) == draw_count(t, n),
    decreases n,
{
    if n > 0 {
        lemma_draw_count_settle(t, u, v, n - 1);
    }
}

proof fn lemma_draw_count_bound(t: Seq<u8>, n: int)
    requires
        0 <= n,
    ensures
        draw_count(t, n) <= n,
    decreases n,
{
    if n > 0 {
        lemma_draw_count_bound(t, n - 1);
    }
}

// ── Reading the children of a table position ──────────────────────────────

/// The sub-table entry read for a position reached by a capture: the entry of the table of its
/// material at its index there.
pub open spec fn capture_read(st: Map<Seq<u8>, Seq<u8>>, c: Parsed) -> u8 {
    let key = tablebase::material_spec(c.squares@);
    st[key][tablebase::tb_index_spec(key, c)]
}

/// Value of a position that leaves the material of the set being solved, seen by its side to
/// move: its status when the game is over, else its entry in the sub-table of its material.
pub open spec fn outside_value(st: Map<Seq<u8>, Seq<u8>>, c: Parsed) -> u8 {
    match status::status_spec(c) {
        Status::Win(w) => if w == c.turn {
            TB_WIN
        } else {
            TB_LOSS
        },
        Status::Draw => TB_DRAW,
        Status::Playing => capture_read(st, c),
    }
}

/// The sub-tables that a capture from `pieces` reads are framed: a win, draw or loss at every
/// index, a draw at impossible placements, and the result of every finished game.
pub open spec fn subtables_framed(pieces: Seq<u8>, st: Map<Seq<u8>, Seq<u8>>) -> bool {
    forall|j: int, i: int|
        0 <= j < pieces.len() && tablebase::both_colors(tablebase::sub_key(pieces, j)) && 0 <= i < st[tablebase::sub_key(
            pieces,
            j,
        )].len() ==> #[trigger] frame_ok(tablebase::sub_key(pieces, j), st[tablebase::sub_key(pieces, j)], i)
}

/// `p` is the board of the valid index `i` of a distinct-code set, and its game goes on.
pub open spec fn live_board(pieces: Seq<u8>, i: int, p: Parsed) -> bool {
    &&& tablebase::distinct_codes(pieces)
    &&& 0 <= i
    &&& tablebase::tb_valid(pieces, i)
    &&& tb_board(pieces, i, p)
    &&& !(status::status_spec(p) is Win)
}

/// A position that the table being solved does not value is valued by `outside_value`.
proof fn lemma_outside(pieces: Seq<u8>, st: Map<Seq<u8>, Seq<u8>>, t: Seq<u8>, c: Parsed)
    requires
        !in_set(pieces, c),
    ensures
        child_value(pieces, st, t, c) == outside_value(st, c),
{
}

/// Facts about a move of a live table board: it is legal and may land, and neither den is
/// taken before it.
proof fn lemma_live_move(pieces: Seq<u8>, i: int, p: Parsed, m: (u8, u8), c: Parsed)
    requires
        live_board(pieces, i, p),
        is_child(p, m, c),
    ensures
        board::valid_position(p),
        board::valid_position(c),
        movegen::move_ok(p, m),
        movegen::land_ok(p, m.0 as int, m),
        m.0 != m.1,
        board::color_of(p.squares[3]) != 1,
        board::color_of(p.squares[59]) != 0,
        m.1 != board::own_den(p.turn),
        p.turn <= 1,
        p.progress == 0,
        p.movenum == 1,
        forall|x: u8| 1 <= x ==> #[trigger] tablebase::count_code(p.squares@, x, 63) == (if pieces.contains(x) {
            1nat
        } else {
            0nat
        }),
        tablebase::placement_ok(p.squares@),
{
    lemma_board_facts(pieces, i, p);
    movegen::lemma_legal_moves_ok(p);
    let k = choose|k: int| 0 <= k < movegen::legal_moves_spec(p).len() && movegen::legal_moves_spec(p)[k] == m;
    assert(movegen::move_ok(p, movegen::legal_moves_spec(p)[k]));
    crate::search::lemma_legal_move_facts(p, m);
    let jx = lemma_child_facts(pieces, p, m, c);
    tablebase::lemma_tb_board_placement(pieces, i, pieces.len() as int);
}

/// A move into the enemy den wins at once.
proof fn lemma_den_child(pieces: Seq<u8>, st: Map<Seq<u8>, Seq<u8>>, i: int, p: Parsed, m: (u8, u8), c: Parsed)
    requires
        live_board(pieces, i, p),
        is_child(p, m, c),
        m.1 == board::opp_den(p.turn),
    ensures
        outside_value(st, c) == TB_LOSS,
        !in_set(pieces, c),
{
    lemma_live_move(pieces, i, p, m, c);
    let cs = c.squares@;
    assert(c.squares[m.1 as int] == cs[m.1 as int]);
    assert(c.squares[3] == cs[3]);
    assert(c.squares[59] == cs[59]);
}

/// A capture: the set being solved no longer values the position; taking the last piece wins at
/// once; otherwise, against framed sub-tables, the value is the sub-table entry read.
proof fn lemma_capture_child(pieces: Seq<u8>, st: Map<Seq<u8>, Seq<u8>>, i: int, p: Parsed, m: (u8, u8), c: Parsed)
    requires
        live_board(pieces, i, p),
        is_child(p, m, c),
        p.squares[m.1 as int] != 0,
        m.1 != board::opp_den(p.turn),
    ensures
        !in_set(pieces, c),
        !status::has_pieces(c, c.turn) ==> outside_value(st, c) == TB_LOSS,
        status::has_pieces(c, c.turn) && subtables_ready(pieces, st) && subtables_framed(pieces, st) ==> outside_value(st, c)
            == capture_read(st, c) && capture_read(st, c) <= 2,
{
    lemma_live_move(pieces, i, p, m, c);
    let j = lemma_child_facts(pieces, p, m, c);
    let cs = c.squares@;
    let ps = p.squares@;
    assert(c.squares[m.1 as int] == cs[m.1 as int]);
    assert(c.squares[3] == cs[3]);
    assert(c.squares[59] == cs[59]);
    assert(board::color_of(c.squares[m.1 as int]) == p.turn);
    if p.turn == 0 {
        assert(status::has_pieces(c, 0));
    } else {
        assert(status::has_pieces(c, 1));
    }
    if status::has_pieces(c, c.turn) && subtables_ready(pieces, st) && subtables_framed(pieces, st) {
        assert(status::has_pieces(c, 0) && status::has_pieces(c, 1));
        let j2 = tablebase::lemma_child_key(pieces, ps, m.0 as int, m.1 as int, c);
        let key = tablebase::sub_key(pieces, j2);
        tablebase::lemma_sub_key(pieces, j2);
        assert(tablebase::material_spec(cs) == tablebase::sub_key(pieces, j));
        assert(st.contains_key(key));
        assert(tablebase::distinct_codes(key)) by {
            assert forall|a: int| 0 <= a < key.len() implies 1 <= #[trigger] key[a] <= 16 by {
                assert(key.contains(key[a]));
                let b = choose|b: int| 0 <= b < pieces.len() && pieces[b] == key[a];
            }
            assert forall|a: int, b: int| 0 <= a < key.len() && 0 <= b < key.len() && a != b implies #[trigger] key[a]
                != #[trigger] key[b] by {
                if a < b {
                    assert(key[a] < key[b]);
                } else {
                    assert(key[b] < key[a]);
                }
            }
        }
        assert forall|x: u8| 1 <= x implies #[trigger] tablebase::count_code(cs, x, 63) == (if key.contains(x) {
            1nat
        } else {
            0nat
        }) by {
            tablebase::lemma_move_counts(ps, m.0 as int, m.1 as int, x);
        }
        assert(tablebase::own_den_of(p.squares[m.0 as int]) == board::own_den(board::color_of(p.squares[m.0 as int])) as int);
        tablebase::lemma_placement_move(ps, m.0 as int, m.1 as int);
        tablebase::lemma_index_roundtrip(key, c);
        tablebase::lemma_material_present(c);
        tablebase::lemma_tb_digits_bound(key, c, key.len() as int);
        let ci = tablebase::tb_index_spec(key, c);
        let q = Parsed { squares: c.squares, turn: c.turn, progress: 0, movenum: 1 };
        assert(tb_board(key, ci, q));
        lemma_tb_position(key, ci, q);
        status::lemma_status_same_board(q, c);
        assert(frame_ok(key, st[key], ci));
    }
}

/// A quiet move other than a den entry stays in the set: its position has a valid index, and
/// against a framed table `t` its value is the entry there.
proof fn lemma_quiet_child(
    pieces: Seq<u8>,
    st: Map<Seq<u8>, Seq<u8>>,
    t: Seq<u8>,
    i: int,
    p: Parsed,
    m: (u8, u8),
    c: Parsed,
) -> (ci: int)
    requires
        live_board(pieces, i, p),
        is_child(p, m, c),
        p.squares[m.1 as int] == 0,
        m.1 != board::opp_den(p.turn),
        t.len() == tablebase::table_size(pieces.len()),
    ensures
        ci == tablebase::tb_index_spec(pieces, c),
        0 <= ci < t.len(),
        tablebase::tb_valid(pieces, ci),
        tablebase::placed_seq(pieces, ci, pieces.len() as int) == c.squares@,
        ci % 2 == c.turn,
        frame_ok(pieces, t, ci) ==> child_value(pieces, st, t, c) == t[ci],
{
    lemma_live_move(pieces, i, p, m, c);
    let jx = lemma_child_facts(pieces, p, m, c);
    let cs = c.squares@;
    let ps = p.squares@;
    assert forall|x: u8| 1 <= x implies #[trigger] tablebase::count_code(cs, x, 63) == (if pieces.contains(x) {
        1nat
    } else {
        0nat
    }) by {
        tablebase::lemma_move_counts(ps, m.0 as int, m.1 as int, x);
    }
    assert(tablebase::own_den_of(p.squares[m.0 as int]) == board::own_den(board::color_of(p.squares[m.0 as int])) as int);
    tablebase::lemma_placement_move(ps, m.0 as int, m.1 as int);
    tablebase::lemma_index_roundtrip(pieces, c);
    let ci = tablebase::tb_index_spec(pieces, c);
    let q = Parsed { squares: c.squares, turn: c.turn, progress: 0, movenum: 1 };
    assert(tb_board(pieces, ci, q));
    lemma_tb_position(pieces, ci, q);
    status::lemma_status_same_board(q, c);
    ci
}

/// Two quiet moves of a live table board reach two table indices.
proof fn lemma_quiet_apart(
    pieces: Seq<u8>,
    st: Map<Seq<u8>, Seq<u8>>,
    i: int,
    p: Parsed,
    m1: (u8, u8),
    c1: Parsed,
    m2: (u8, u8),
    c2: Parsed,
)
    requires
        live_board(pieces, i, p),
        is_child(p, m1, c1),
        is_child(p, m2, c2),
        p.squares[m1.1 as int] == 0,
        p.squares[m2.1 as int] == 0,
        m1.1 != board::opp_den(p.turn),
        m2.1 != board::opp_den(p.turn),
        m1 != m2,
    ensures
        tablebase::tb_index_spec(pieces, c1) != tablebase::tb_index_spec(pieces, c2),
{
    let t = Seq::new(tablebase::table_size(pieces.len()), |k: int| 0u8);
    let k1 = lemma_quiet_child(pieces, st, t, i, p, m1, c1);
    let k2 = lemma_quiet_child(pieces, st, t, i, p, m2, c2);
    lemma_live_move(pieces, i, p, m1, c1);
    lemma_live_move(pieces, i, p, m2, c2);
    if k1 == k2 {
        let a = c1.squares@;
        let f1 = m1.0 as int;
        let t1 = m1.1 as int;
        let f2 = m2.0 as int;
        let t2 = m2.1 as int;
        assert(a[t1] == p.squares@[f1]);
        assert(p.squares[f1] == p.squares@[f1]);
        assert(p.squares[f2] == p.squares@[f2]);
        assert(p.squares[t1] == p.squares@[t1]);
        assert(p.squares[t2] == p.squares@[t2]);
        assert(t1 == t2);
        assert(a[f1] == 0);
        assert(f1 == f2);
    }
}

/// A sequence without repeats holds each value at most once.
proof fn lemma_count_nodup<A>(s: Seq<A>, x: A)
    requires
        s.no_duplicates(),
    ensures
        count_of(s, x) <= 1,
    decreases s.len(),
{
    if s.len() > 0 {
        let d = s.drop_last();
        assert(d.no_duplicates());
        lemma_count_nodup(d, x);
        if s.last() == x {
            lemma_count_pos(d, x);
            if d.contains(x) {
                let k = choose|k: int| 0 <= k < d.len() && d[k] == x;
                assert(s[k] == s[s.len() - 1]);
            }
        }
    }
}

// ── Counting for the retrograde solver ──────────────────────────────────────

/// Occurrences of `x` in `s`.
pub open spec fn count_of<A>(s: Seq<A>, x: A) -> nat
    decreases s.len(),
{
    if s.len() == 0 {
        0
    } else {
        count_of(s.drop_last(), x) + if s.last() == x {
            1nat
        } else {
            0nat
        }
    }
}

proof fn lemma_count_push<A>(s: Seq<A>, y: A, x: A)
    ensures
        count_of(s.push(y), x) == count_of(s, x) + if y == x {
            1nat
        } else {
            0nat
        },
{
    assert(s.push(y).drop_last() =~= s);
}

proof fn lemma_count_take<A>(s: Seq<A>, k: int, x: A)
    requires
        0 <= k < s.len(),
    ensures
        count_of(s.take(k + 1), x) == count_of(s.take(k), x) + if s[k] == x {
            1nat
        } else {
            0nat
        },
{
    assert(s.take(k + 1) =~= s.take(k).push(s[k]));
    lemma_count_push(s.take(k), s[k], x);
}

proof fn lemma_count_take_le<A>(s: Seq<A>, k: int, x: A)
    requires
        0 <= k <= s.len(),
    ensures
        count_of(s.take(k), x) <= count_of(s, x),
    decreases s.len() - k,
{
    if k < s.len() {
        lemma_count_take(s, k, x);
        lemma_count_take_le(s, k + 1, x);
    } else {
        assert(s.take(k) =~= s);
    }
}

proof fn lemma_count_pos<A>(s: Seq<A>, x: A)
    ensures
        count_of(s, x) > 0 <==> s.contains(x),
    decreases s.len(),
{
    if s.len() > 0 {
        let d = s.drop_last();
        lemma_count_pos(d, x);
        if d.contains(x) {
            let i = choose|i: int| 0 <= i < d.len() && d[i] == x;
            assert(s[i] == x);
        }
        if s.contains(x) && s.last() != x {
            let i = choose|i: int| 0 <= i < s.len() && s[i] == x;
            assert(d[i] == x);
        }
        if s.last() == x {
            assert(s[s.len() - 1] == x);
        }
    }
}

/// Entries of `s` that are not yet a win taken off the queue (`done`).
pub open spec fn undone(s: Seq<int>, done: Seq<bool>, t: Seq<u8>) -> nat
    decreases s.len(),
{
    if s.len() == 0 {
        0
    } else {
        undone(s.drop_last(), done, t) + if done[s.last()] && t[s.last()] == TB_WIN {
            0nat
        } else {
            1nat
        }
    }
}

proof fn lemma_undone_settle(s: Seq<int>, done: Seq<bool>, t: Seq<u8>, u: int, v: u8)
    requires
        0 <= u < t.len(),
        !done[u],
        forall|a: int| 0 <= a < s.len() ==> 0 <= #[trigger] s[a] < t.len(),
    ensures
        undone(s, done, t.update(u, v)) == undone(s, done, t),
    decreases s.len(),
{
    if s.len() > 0 {
        let d = s.drop_last();
        assert forall|a: int| 0 <= a < d.len() implies 0 <= #[trigger] d[a] < t.len() by {
            assert(d[a] == s[a]);
        }
        lemma_undone_settle(d, done, t, u, v);
        assert(s.last() == s[s.len() - 1]);
    }
}

proof fn lemma_undone_mark(s: Seq<int>, done: Seq<bool>, t: Seq<u8>, v: int)
    requires
        0 <= v < done.len(),
        t[v] != TB_WIN,
        forall|a: int| 0 <= a < s.len() ==> 0 <= #[trigger] s[a] < done.len(),
    ensures
        undone(s, done.update(v, true), t) == undone(s, done, t),
    decreases s.len(),
{
    if s.len() > 0 {
        let d = s.drop_last();
        assert forall|a: int| 0 <= a < d.len() implies 0 <= #[trigger] d[a] < done.len() by {
            assert(d[a] == s[a]);
        }
        lemma_undone_mark(d, done, t, v);
        assert(s.last() == s[s.len() - 1]);
    }
}

proof fn lemma_undone_mark_win(s: Seq<int>, done: Seq<bool>, t: Seq<u8>, v: int)
    requires
        0 <= v < done.len(),
        !done[v],
        t[v] == TB_WIN,
        forall|a: int| 0 <= a < s.len() ==> 0 <= #[trigger] s[a] < done.len(),
    ensures
        undone(s, done.update(v, true), t) + count_of(s, v) == undone(s, done, t),
    decreases s.len(),
{
    if s.len() > 0 {
        let d = s.drop_last();
        assert forall|a: int| 0 <= a < d.len() implies 0 <= #[trigger] d[a] < done.len() by {
            assert(d[a] == s[a]);
        }
        lemma_undone_mark_win(d, done, t, v);
        assert(s.last() == s[s.len() - 1]);
    }
}

proof fn lemma_undone_zero(s: Seq<int>, done: Seq<bool>, t: Seq<u8>)
    requires
        undone(s, done, t) == 0,
    ensures
        forall|a: int| 0 <= a < s.len() ==> done[#[trigger] s[a]] && t[s[a]] == TB_WIN,
    decreases s.len(),
{
    if s.len() > 0 {
        let d = s.drop_last();
        lemma_undone_zero(d, done, t);
        assert forall|a: int| 0 <= a < s.len() implies done[#[trigger] s[a]] && t[s[a]] == TB_WIN by {
            if a < d.len() {
                assert(d[a] == s[a]);
            }
        }
    }
}

proof fn lemma_undone_pos(s: Seq<int>, done: Seq<bool>, t: Seq<u8>) -> (a: int)
    requires
        undone(s, done, t) > 0,
    ensures
        0 <= a < s.len(),
        !(done[s[a]] && t[s[a]] == TB_WIN),
    decreases s.len(),
{
    let d = s.drop_last();
    if undone(d, done, t) > 0 {
        let a = lemma_undone_pos(d, done, t);
        assert(d[a] == s[a]);
        a
    } else {
        (s.len() - 1) as int
    }
}

proof fn lemma_undone_fresh(s: Seq<int>, done: Seq<bool>, t: Seq<u8>)
    requires
        forall|k: int| 0 <= k < done.len() ==> !(#[trigger] done[k]),
        forall|a: int| 0 <= a < s.len() ==> 0 <= #[trigger] s[a] < done.len(),
    ensures
        undone(s, done, t) == s.len(),
    decreases s.len(),
{
    if s.len() > 0 {
        let d = s.drop_last();
        assert forall|a: int| 0 <= a < d.len() implies 0 <= #[trigger] d[a] < done.len() by {
            assert(d[a] == s[a]);
        }
        lemma_undone_fresh(d, done, t);
        assert(s.last() == s[s.len() - 1]);
    }
}

/// The move `m` of `p` to `c` wins at once: it enters the enemy den, takes the opponent's last
/// piece, or captures into a sub-table loss for the opponent.
pub open spec fn wins_at_once(st: Map<Seq<u8>, Seq<u8>>, p: Parsed, m: (u8, u8), c: Parsed) -> bool {
    ||| m.1 == board::opp_den(p.turn)
    ||| p.squares[m.1 as int] != 0 && !status::has_pieces(c, c.turn)
    ||| p.squares[m.1 as int] != 0 && status::has_pieces(c, c.turn) && capture_read(st, c) == TB_LOSS
}

/// Some capture of `p` reaches a sub-table draw.
pub open spec fn drawing_capture(st: Map<Seq<u8>, Seq<u8>>, p: Parsed) -> bool {
    exists|m: (u8, u8), c: Parsed|
        #[trigger] is_child(p, m, c) && p.squares[m.1 as int] != 0 && status::has_pieces(c, c.turn) && capture_read(st, c)
            == TB_DRAW
}

/// `s` lists the table indices of the positions that the quiet moves of `p` reach, one entry
/// per move.
pub open spec fn quiet_listed(pieces: Seq<u8>, p: Parsed, s: Seq<int>) -> bool {
    &&& forall|m: (u8, u8), c: Parsed|
        #[trigger] is_child(p, m, c) && p.squares[m.1 as int] == 0 ==> s.contains(tablebase::tb_index_spec(pieces, c))
    &&& forall|a: int| 0 <= a < s.len() ==> #[trigger] quiet_at(pieces, p, s, a)
}

/// Entry `a` of `s` is the table index of the position that a quiet move of `p` reaches.
pub open spec fn quiet_at(pieces: Seq<u8>, p: Parsed, s: Seq<int>, a: int) -> bool {
    exists|m: (u8, u8), c: Parsed|
        #[trigger] is_child(p, m, c) && p.squares[m.1 as int] == 0 && s[a] == tablebase::tb_index_spec(pieces, c)
}

/// Looks once at every move of a game in progress `p` of the set: whether one wins at once (den
/// entry, capture of the last enemy piece, or a capture into a sub-table loss for the opponent),
/// whether a capture reaches a sub-table draw, the number of quiet moves, and (when `record`)
/// the table indices of the quiet moves' positions. The ghost part lists those indices always.
fn first_scan(pieces: &[u8], store: &Store, p: &Parsed, record: bool, Ghost(i): Ghost<int>) -> (r: (
    bool,
    bool,
    usize,
    Vec<u32>,
    Ghost<Seq<int>>,
))
    requires
        solvable(pieces@),
        subtables_ready(pieces@, store@),
        record ==> tablebase::table_size(pieces@.len()) <= u32::MAX,
        live_board(pieces@, i, *p),
    ensures
        r.0 ==> exists|m: (u8, u8), c: Parsed| #[trigger] is_child(*p, m, c) && wins_at_once(store@, *p, m, c),
        !r.0 ==> forall|m: (u8, u8), c: Parsed| #[trigger] is_child(*p, m, c) ==> !wins_at_once(store@, *p, m, c),
        !r.0 ==> (r.1 <==> drawing_capture(store@, *p)),
        !r.0 ==> quiet_listed(pieces@, *p, r.4@),
        r.4@.no_duplicates(),
        forall|j: int| 0 <= j < r.4@.len() ==> 0 <= #[trigger] r.4@[j] < tablebase::table_size(pieces@.len()),
        r.4@.len() == r.2,
        record ==> r.3@.len() == r.2,
        record ==> forall|j: int| 0 <= j < r.3@.len() ==> #[trigger] r.3@[j] as int == r.4@[j],
        r.2 <= 504,
{
    proof {
        lemma_board_facts(pieces@, i, *p);
    }
    let moves = legal_moves(p);
    proof {
        movegen::lemma_legal_moves_ok(*p);
    }
    let mut winning = false;
    let mut fixed_draw = false;
    let mut in_set: Vec<u32> = Vec::new();
    let mut gs: Ghost<Seq<int>> = Ghost(Seq::empty());
    let mut wm: Ghost<Seq<(u8, u8)>> = Ghost(Seq::empty());
    let mut wc: Ghost<Seq<Parsed>> = Ghost(Seq::empty());
    let mut wk: Ghost<Seq<int>> = Ghost(Seq::empty());
    let mut nsucc: usize = 0;
    proof {
        movegen::lemma_legal_distinct(*p);
    }
    let mut j: usize = 0;
    while j < moves.len()
        invariant_except_break
            !winning,
            forall|a: int|
                0 <= a < gs@.len() ==> is_child(*p, #[trigger] wm@[a], wc@[a]) && p.squares[wm@[a].1 as int] == 0 && gs@[a]
                    == tablebase::tb_index_spec(pieces@, wc@[a]),
        invariant
            0 <= j <= moves@.len(),
            nsucc <= j,
            gs@.len() == nsucc,
            wm@.len() == nsucc,
            wc@.len() == nsucc,
            wk@.len() == nsucc,
            forall|a: int| 0 <= a < wk@.len() ==> 0 <= #[trigger] wk@[a] < j && wm@[a] == moves@[wk@[a]],
            forall|a: int| 0 <= a < wm@.len() ==> (#[trigger] wm@[a]).1 != board::opp_den(p.turn),
            gs@.no_duplicates(),
            forall|a: int, b: int|
                0 <= a < moves@.len() && 0 <= b < moves@.len() && a != b ==> #[trigger] moves@[a] != #[trigger] moves@[b],
            record ==> in_set@.len() == nsucc,
            record ==> forall|a: int| 0 <= a < in_set@.len() ==> #[trigger] in_set@[a] as int == gs@[a],
            forall|k: int, c: Parsed|
                0 <= k < j && #[trigger] is_child(*p, moves@[k], c) && p.squares[moves@[k].1 as int] == 0
                    ==> gs@.contains(tablebase::tb_index_spec(pieces@, c)),
            moves@ == movegen::legal_moves_spec(*p),
            moves@.len() <= 504,
            forall|k: int| 0 <= k < moves@.len() ==> #[trigger] movegen::move_ok(*p, moves@[k]),
            solvable(pieces@),
            subtables_ready(pieces@, store@),
            record ==> tablebase::table_size(pieces@.len()) <= u32::MAX,
            live_board(pieces@, i, *p),
            board::valid_position(*p),
            p.progress == 0,
            p.movenum == 1,
            forall|x: u8| 1 <= x ==> #[trigger] tablebase::count_code(p.squares@, x, 63) == (if pieces@.contains(x) {
                1nat
            } else {
                0nat
            }),
            forall|a: int| 0 <= a < gs@.len() ==> 0 <= #[trigger] gs@[a] < tablebase::table_size(pieces@.len()),
            forall|k: int, c: Parsed| 0 <= k < j && #[trigger] is_child(*p, moves@[k], c) ==> !wins_at_once(store@, *p, moves@[k], c),
            fixed_draw <==> exists|k: int, c: Parsed|
                0 <= k < j && #[trigger] is_child(*p, moves@[k], c) && p.squares[moves@[k].1 as int] != 0
                    && status::has_pieces(c, c.turn) && capture_read(store@, c) == TB_DRAW,
        ensures
            winning ==> exists|m: (u8, u8), c: Parsed| #[trigger] is_child(*p, m, c) && wins_at_once(store@, *p, m, c),
            !winning ==> j == moves@.len(),
            !winning ==> forall|a: int|
                0 <= a < gs@.len() ==> is_child(*p, #[trigger] wm@[a], wc@[a]) && p.squares[wm@[a].1 as int] == 0 && gs@[a]
                    == tablebase::tb_index_spec(pieces@, wc@[a]),
        decreases moves@.len() - j,
    {
        let m = moves[j];
        proof {
            assert(moves@.contains(m));
            assert(movegen::move_ok(*p, moves@[j as int]));
            crate::search::lemma_legal_move_facts(*p, m);
        }
        if m.1 == opp_den(p.turn) {
            let child = make_move(p, m);
            proof {
                assert(is_child(*p, m, child));
                assert(wins_at_once(store@, *p, m, child));
            }
            winning = true;
            break;
        }
        let captured = p.squares[m.1 as usize] != 0;
        let child = make_move(p, m);
        proof {
            assert(is_child(*p, m, child));
            assert forall|c: Parsed| #[trigger] is_child(*p, m, c) implies c == child by {
                lemma_child_unique(*p, m, c, child);
            }
        }
        let ghost jx = lemma_child_facts(pieces@, *p, m, child);
        let ghost old_in = in_set@;
        let ghost old_gs = gs@;
        let ghost old_wm = wm@;
        let ghost old_wc = wc@;
        let ghost old_wk = wk@;
        let ghost old_fd = fixed_draw;
        if !captured {
            if record {
                let ci = tb_index(pieces, &child);
                in_set.push(ci as u32);
            }
            nsucc += 1;
        } else if !color_has_pieces(&child, child.turn) {
            proof {
                assert(wins_at_once(store@, *p, m, child));
            }
            winning = true;
            break;
        } else {
            proof {
                assert(child.squares@[m.1 as int] == p.squares@[m.0 as int]);
                assert(color_of(child.squares[m.1 as int]) == 1 - child.turn);
                if child.turn == 0 {
                    assert(status::has_pieces(child, 1));
                } else {
                    assert(status::has_pieces(child, 0));
                }
            }
            let key = material_key(&child);
            proof {
                tablebase::lemma_material_present(child);
            }
            let t = store.get(key.as_slice()).unwrap();
            let n = t.len();
            assert(tablebase::table_size(key@.len() as nat) == n);
            let ci = tb_index(key.as_slice(), &child);
            let v = t[ci];
            assert(v == capture_read(store@, child));
            if v == TB_LOSS {
                proof {
                    assert(wins_at_once(store@, *p, m, child));
                }
                winning = true;
                break;
            }
            if v == TB_DRAW {
                fixed_draw = true;
            }
        }
        if !captured {
            gs = Ghost(gs@.push(tablebase::tb_index_spec(pieces@, child)));
            wm = Ghost(wm@.push(m));
            wc = Ghost(wc@.push(child));
            wk = Ghost(wk@.push(j as int));
        }
        proof {
            if !captured {
                assert forall|a: int| 0 <= a < wk@.len() implies 0 <= #[trigger] wk@[a] < j + 1 && wm@[a] == moves@[wk@[a]] by {
                    if a < old_wk.len() {
                        assert(wk@[a] == old_wk[a]);
                        assert(wm@[a] == old_wm[a]);
                    }
                }
                assert forall|a: int| 0 <= a < wm@.len() implies (#[trigger] wm@[a]).1 != board::opp_den(p.turn) by {
                    if a < old_wm.len() {
                        assert(wm@[a] == old_wm[a]);
                    }
                }
                assert forall|a: int, b: int| 0 <= a < gs@.len() && 0 <= b < gs@.len() && a != b implies gs@[a] != gs@[b] by {
                    if a < old_gs.len() && b < old_gs.len() {
                        assert(gs@[a] == old_gs[a]);
                        assert(gs@[b] == old_gs[b]);
                    } else {
                        let o = if a < old_gs.len() { a } else { b };
                        assert(gs@[o] == old_gs[o]);
                        assert(wm@[o] == old_wm[o]);
                        assert(wc@[o] == old_wc[o]);
                        assert(is_child(*p, old_wm[o], old_wc[o]) && p.squares[old_wm[o].1 as int] == 0 && old_gs[o]
                            == tablebase::tb_index_spec(pieces@, old_wc[o]));
                        assert(old_wm[o] == moves@[old_wk[o]]);
                        assert(old_wk[o] < j);
                        assert(moves@[old_wk[o]] != moves@[j as int]);
                        lemma_quiet_apart(pieces@, store@, i, *p, old_wm[o], old_wc[o], m, child);
                    }
                }
                assert forall|a: int|
                    0 <= a < gs@.len() implies is_child(*p, #[trigger] wm@[a], wc@[a]) && p.squares[wm@[a].1 as int] == 0
                        && gs@[a] == tablebase::tb_index_spec(pieces@, wc@[a]) by {
                    if a < old_gs.len() {
                        assert(wm@[a] == old_wm[a]);
                        assert(wc@[a] == old_wc[a]);
                        assert(gs@[a] == old_gs[a]);
                    }
                }
                assert forall|k: int, c: Parsed|
                    0 <= k < j + 1 && #[trigger] is_child(*p, moves@[k], c) && p.squares[moves@[k].1 as int] == 0 implies gs@.contains(
                    tablebase::tb_index_spec(pieces@, c),
                ) by {
                    if k < j {
                        let a = choose|a: int| 0 <= a < old_gs.len() && old_gs[a] == tablebase::tb_index_spec(pieces@, c);
                        assert(gs@[a] == old_gs[a]);
                    } else {
                        assert(c == child);
                        assert(gs@[old_gs.len() as int] == tablebase::tb_index_spec(pieces@, c));
                    }
                }
                if record {
                    assert forall|a: int| 0 <= a < in_set@.len() implies #[trigger] in_set@[a] as int == gs@[a] by {
                        if a < old_in.len() {
                            assert(in_set@[a] == old_in[a]);
                            assert(gs@[a] == old_gs[a]);
                        }
                    }
                }
                assert forall|a: int| 0 <= a < gs@.len() implies 0 <= #[trigger] gs@[a] < tablebase::table_size(pieces@.len()) by {
                    if a < old_gs.len() {
                        assert(gs@[a] == old_gs[a]);
                    }
                }
            } else {
                assert forall|k: int, c: Parsed|
                    0 <= k < j + 1 && #[trigger] is_child(*p, moves@[k], c) && p.squares[moves@[k].1 as int] == 0 implies gs@.contains(
                    tablebase::tb_index_spec(pieces@, c),
                ) by {
                    if k == j {
                        assert(c == child);
                    }
                }
            }
            assert(!wins_at_once(store@, *p, m, child));
            assert forall|k: int, c: Parsed| 0 <= k < j + 1 && #[trigger] is_child(*p, moves@[k], c) implies !wins_at_once(
                store@,
                *p,
                moves@[k],
                c,
            ) by {
                if k == j {
                    assert(c == child);
                }
            }
            if fixed_draw {
                if !old_fd {
                    assert(is_child(*p, moves@[j as int], child));
                }
            }
            if exists|k: int, c: Parsed|
                0 <= k < j + 1 && #[trigger] is_child(*p, moves@[k], c) && p.squares[moves@[k].1 as int] != 0
                    && status::has_pieces(c, c.turn) && capture_read(store@, c) == TB_DRAW {
                let (k, c) = choose|k: int, c: Parsed|
                    0 <= k < j + 1 && #[trigger] is_child(*p, moves@[k], c) && p.squares[moves@[k].1 as int] != 0
                        && status::has_pieces(c, c.turn) && capture_read(store@, c) == TB_DRAW;
                if k == j {
                    assert(c == child);
                } else {
                    assert(is_child(*p, moves@[k], c));
                }
            }
        }
        j += 1;
    }
    proof {
        if !winning {
            assert forall|m: (u8, u8), c: Parsed| #[trigger] is_child(*p, m, c) implies !wins_at_once(store@, *p, m, c) by {
                let k = choose|k: int| 0 <= k < moves@.len() && moves@[k] == m;
                assert(is_child(*p, moves@[k], c));
            }
            if drawing_capture(store@, *p) {
                let (m, c) = choose|m: (u8, u8), c: Parsed|
                    #[trigger] is_child(*p, m, c) && p.squares[m.1 as int] != 0 && status::has_pieces(c, c.turn)
                        && capture_read(store@, c) == TB_DRAW;
                let k = choose|k: int| 0 <= k < moves@.len() && moves@[k] == m;
                assert(is_child(*p, moves@[k], c));
            }
            if fixed_draw {
                let (k, c) = choose|k: int, c: Parsed|
                    0 <= k < j && #[trigger] is_child(*p, moves@[k], c) && p.squares[moves@[k].1 as int] != 0
                        && status::has_pieces(c, c.turn) && capture_read(store@, c) == TB_DRAW;
                assert(is_child(*p, moves@[k], c));
            }
            assert forall|m: (u8, u8), c: Parsed|
                #[trigger] is_child(*p, m, c) && p.squares[m.1 as int] == 0 implies gs@.contains(tablebase::tb_index_spec(pieces@, c)) by {
                let k = choose|k: int| 0 <= k < moves@.len() && moves@[k] == m;
                assert(is_child(*p, moves@[k], c));
            }
            assert forall|a: int| 0 <= a < gs@.len() implies #[trigger] quiet_at(pieces@, *p, gs@, a) by {
                assert(is_child(*p, wm@[a], wc@[a]));
            }
            assert(quiet_listed(pieces@, *p, gs@));
        }
    }
    (winning, fixed_draw, nsucc, in_set, gs)
}

// ── What the retrograde solver keeps ──────────────────────────────────────

/// The first pass looked at entry `u`: a game in progress without a move that wins at once,
/// whose quiet moves reach the entries `s`, and `cl` tells that no capture reaches a sub-table
/// draw.
pub open spec fn scanned(pieces: Seq<u8>, st: Map<Seq<u8>, Seq<u8>>, u: int, s: Seq<int>, cl: bool) -> bool {
    let p = tb_position(pieces, u);
    &&& live_board(pieces, u, p)
    &&& forall|m: (u8, u8), c: Parsed| #[trigger] is_child(p, m, c) ==> !wins_at_once(st, p, m, c)
    &&& cl == !drawing_capture(st, p)
    &&& quiet_listed(pieces, p, s)
    &&& s.no_duplicates()
    &&& forall|a: int| 0 <= a < s.len() ==> 0 <= #[trigger] s[a] < tablebase::table_size(pieces.len())
}

/// Every entry below `n` marked in `rec` was scanned with its quiet successors `succ` and its
/// flag `cl`; the others have no successors.
pub open spec fn scans_ok(
    pieces: Seq<u8>,
    st: Map<Seq<u8>, Seq<u8>>,
    rec: Seq<bool>,
    succ: Seq<Seq<int>>,
    cl: Seq<bool>,
    n: int,
) -> bool {
    &&& forall|u: int| 0 <= u < n && #[trigger] rec[u] ==> scanned(pieces, st, u, succ[u], cl[u])
    &&& forall|u: int| 0 <= u < n && !#[trigger] rec[u] ==> succ[u].len() == 0
}

/// The reverse edges: entry `c` lists scanned entry `u` (below `lim`) once per quiet move of
/// `u` into `c`, until `c` is done.
pub open spec fn preds_ok(pv: Seq<Vec<u32>>, rec: Seq<bool>, succ: Seq<Seq<int>>, done: Seq<bool>, lim: int, size: int) -> bool {
    forall|c: int, u: int|
        0 <= c < size && 0 <= u < size ==> #[trigger] count_of(pv[c]@, u as u32) == if 0 <= u < lim && rec[u]
            && !done[c] {
            count_of(succ[u], c)
        } else {
            0
        }
}

/// Every reverse edge names an entry of the table.
pub open spec fn preds_bounded(pv: Seq<Vec<u32>>, size: int) -> bool {
    forall|c: int, b: int| 0 <= c < size && 0 <= b < pv[c]@.len() ==> (#[trigger] pv[c]@[b] as int) < size
}

/// The counters: each undecided scanned entry counts its quiet successors not yet taken off
/// the queue as wins, less the ones of `list[..a]` when `active`.
pub open spec fn deg_ok(
    deg: Seq<u32>,
    rec: Seq<bool>,
    succ: Seq<Seq<int>>,
    done: Seq<bool>,
    t: Seq<u8>,
    cl: Seq<bool>,
    size: int,
    list: Seq<u32>,
    a: int,
    active: bool,
) -> bool {
    forall|u: int|
        0 <= u < size && #[trigger] rec[u] && t[u] == TB_DRAW ==> (deg[u] + if active {
            count_of(list.take(a), u as u32)
        } else {
            0
        }) == undone(succ[u], done, t) + (if active {
            count_of(list, u as u32)
        } else {
            0
        })
}

/// Entries taken off the queue are decided; decided entries are taken off or still queued.
pub open spec fn settled_known(done: Seq<bool>, t: Seq<u8>, queue: Seq<usize>, from: int, size: int) -> bool {
    &&& forall|c: int| 0 <= c < size && #[trigger] done[c] ==> t[c] != TB_DRAW
    &&& forall|c: int|
        0 <= c < size && #[trigger] t[c] != TB_DRAW ==> done[c] || queue.subrange(from, queue.len() as int).contains(
            c as usize,
        )
}

/// Every scanned entry with a quiet move into a loss taken off the queue is decided.
pub open spec fn losses_answered(done: Seq<bool>, t: Seq<u8>, rec: Seq<bool>, succ: Seq<Seq<int>>, size: int) -> bool {
    forall|v: int, u: int|
        0 <= v < size && 0 <= u < size && #[trigger] done[v] && t[v] == TB_LOSS && #[trigger] rec[u] && count_of(
            succ[u],
            v,
        ) > 0 ==> t[u] != TB_DRAW
}

/// Every undecided game in progress was scanned.
pub open spec fn pending_scanned(pieces: Seq<u8>, t: Seq<u8>, rec: Seq<bool>, size: int) -> bool {
    forall|u: int| 0 <= u < size && #[trigger] pending(pieces, t, u) ==> rec[u]
}

/// Entries below `n` are justified with the settling order `rank`.
pub open spec fn all_base(pieces: Seq<u8>, st: Map<Seq<u8>, Seq<u8>>, t: Seq<u8>, rank: Seq<nat>, n: int) -> bool {
    forall|a: int| 0 <= a < n ==> #[trigger] base_ok(pieces, st, t, rank, a)
}

/// Decided entries were settled before step `step`.
pub open spec fn ranked_before(t: Seq<u8>, rank: Seq<nat>, step: nat) -> bool {
    forall|a: int| 0 <= a < t.len() && #[trigger] t[a] != TB_DRAW ==> rank[a] < step
}

/// The queue holds decided entries of the table.
pub open spec fn queue_ok(queue: Seq<usize>, t: Seq<u8>, size: int) -> bool {
    forall|k: int| 0 <= k < queue.len() ==> (#[trigger] queue[k] as int) < size && t[queue[k] as int] != TB_DRAW
}

/// Every entry is framed.
pub open spec fn all_framed(pieces: Seq<u8>, t: Seq<u8>) -> bool {
    forall|a: int| 0 <= a < t.len() ==> #[trigger] frame_ok(pieces, t, a)
}

/// A scanned entry made a win by a quiet move into a loss settled earlier is justified.
proof fn lemma_win_entry(
    pieces: Seq<u8>,
    st: Map<Seq<u8>, Seq<u8>>,
    t: Seq<u8>,
    rank: Seq<nat>,
    u: int,
    s: Seq<int>,
    cl: bool,
    v: int,
)
    requires
        scanned(pieces, st, u, s, cl),
        s.contains(v),
        0 <= v < t.len(),
        0 <= u < t.len(),
        t.len() == tablebase::table_size(pieces.len()),
        rank.len() == t.len(),
        frame_ok(pieces, t, v),
        t[v] == TB_LOSS,
        t[u] == TB_WIN,
        rank[v] < rank[u],
    ensures
        base_ok(pieces, st, t, rank, u),
{
    let p = tb_position(pieces, u);
    let b = choose|b: int| 0 <= b < s.len() && s[b] == v;
    assert(quiet_at(pieces, p, s, b));
    let (m, c) = choose|m: (u8, u8), c: Parsed|
        #[trigger] is_child(p, m, c) && p.squares[m.1 as int] == 0 && s[b] == tablebase::tb_index_spec(pieces, c);
    assert(!wins_at_once(st, p, m, c));
    let ci = lemma_quiet_child(pieces, st, t, u, p, m, c);
    assert(ci == v);
    assert(frame_ok(pieces, t, v));
    assert(is_child(p, m, c) && child_value(pieces, st, t, c) == TB_LOSS && below(pieces, rank, u, c));
}

/// A scanned entry that can lose, all of whose quiet successors are wins settled earlier, is
/// justified as a loss against framed sub-tables.
proof fn lemma_loss_entry(
    pieces: Seq<u8>,
    st: Map<Seq<u8>, Seq<u8>>,
    t: Seq<u8>,
    rank: Seq<nat>,
    u: int,
    s: Seq<int>,
)
    requires
        scanned(pieces, st, u, s, true),
        subtables_ready(pieces, st),
        subtables_framed(pieces, st),
        0 <= u < t.len(),
        t.len() == tablebase::table_size(pieces.len()),
        rank.len() == t.len(),
        t[u] == TB_LOSS,
        forall|b: int| 0 <= b < s.len() ==> t[#[trigger] s[b]] == TB_WIN && rank[s[b]] < rank[u] && frame_ok(pieces, t, s[b]),
    ensures
        base_ok(pieces, st, t, rank, u),
{
    let p = tb_position(pieces, u);
    assert forall|m: (u8, u8), c: Parsed| #[trigger] is_child(p, m, c) implies child_value(pieces, st, t, c) == TB_WIN
        && below(pieces, rank, u, c) by {
        assert(!wins_at_once(st, p, m, c));
        if p.squares[m.1 as int] == 0 {
            let ci = lemma_quiet_child(pieces, st, t, u, p, m, c);
            assert(quiet_listed(pieces, p, s));
            assert(s.contains(ci));
            let b = choose|b: int| 0 <= b < s.len() && s[b] == ci;
            assert(t[s[b]] == TB_WIN);
            assert(frame_ok(pieces, t, s[b]));
        } else {
            lemma_capture_child(pieces, st, u, p, m, c);
            lemma_outside(pieces, st, t, c);
            if capture_read(st, c) == TB_DRAW {
                assert(drawing_capture(st, p));
            }
        }
    }
}

/// A scanned-out entry that wins at once is justified against framed sub-tables.
proof fn lemma_quick_win_entry(pieces: Seq<u8>, st: Map<Seq<u8>, Seq<u8>>, t: Seq<u8>, rank: Seq<nat>, u: int, p: Parsed)
    requires
        live_board(pieces, u, p),
        subtables_ready(pieces, st),
        subtables_framed(pieces, st),
        0 <= u < t.len(),
        t[u] == TB_WIN,
        exists|m: (u8, u8), c: Parsed| #[trigger] is_child(p, m, c) && wins_at_once(st, p, m, c),
    ensures
        base_ok(pieces, st, t, rank, u),
{
    lemma_tb_position(pieces, u, p);
    let (m, c) = choose|m: (u8, u8), c: Parsed| #[trigger] is_child(p, m, c) && wins_at_once(st, p, m, c);
    if m.1 == board::opp_den(p.turn) {
        lemma_den_child(pieces, st, u, p, m, c);
    } else {
        lemma_capture_child(pieces, st, u, p, m, c);
    }
    lemma_outside(pieces, st, t, c);
    assert(is_child(p, m, c) && child_value(pieces, st, t, c) == TB_LOSS && below(pieces, rank, u, c));
}

/// Occurrences of `u` in the reverse edges of a queued entry `v` taken off the queue.
pub open spec fn list_ok(list: Seq<u32>, rec: Seq<bool>, succ: Seq<Seq<int>>, done: Seq<bool>, v: int, size: int) -> bool {
    &&& forall|u: int|
        0 <= u < size ==> #[trigger] count_of(list, u as u32) == if rec[u] && !done[v] {
            count_of(succ[u], v)
        } else {
            0
        }
    &&& forall|b: int| 0 <= b < list.len() ==> (#[trigger] list[b] as int) < size
}

/// The counters of scanned entries that can still lose are positive.
pub open spec fn lpos_ok(deg: Seq<u32>, rec: Seq<bool>, t: Seq<u8>, cl: Seq<bool>, size: int) -> bool {
    forall|u: int| 0 <= u < size && #[trigger] rec[u] && t[u] == TB_DRAW && cl[u] ==> deg[u] > 0
}

/// Every undecided scanned entry that can still lose has a quiet successor not yet taken off the
/// queue as a win.
pub open spec fn undone_positive(rec: Seq<bool>, succ: Seq<Seq<int>>, done: Seq<bool>, t: Seq<u8>, cl: Seq<bool>, size: int) -> bool {
    forall|u: int| 0 <= u < size && #[trigger] rec[u] && t[u] == TB_DRAW && cl[u] ==> undone(succ[u], done, t) > 0
}

/// Settling an undecided scanned entry `u` to `x` at step `step` keeps what the solver knows.
proof fn lemma_retro_settle(
    pieces: Seq<u8>,
    st: Map<Seq<u8>, Seq<u8>>,
    t: Seq<u8>,
    rank: Seq<nat>,
    step: nat,
    cl: Seq<bool>,
    rec: Seq<bool>,
    succ: Seq<Seq<int>>,
    done: Seq<bool>,
    dn2: Seq<bool>,
    queue: Seq<usize>,
    from: int,
    size: int,
    u: int,
    x: u8,
)
    requires
        size == t.len(),
        size == tablebase::table_size(pieces.len()),
        size <= usize::MAX,
        rank.len() == size,
        rec.len() == size,
        succ.len() == size,
        done.len() == size,
        dn2.len() == size,
        cl.len() == size,
        0 <= u < size,
        t[u] == TB_DRAW,
        rec[u],
        x == TB_WIN || x == TB_LOSS,
        forall|k: int| 0 <= k < size && #[trigger] done[k] ==> dn2[k],
        all_framed(pieces, t),
        scans_ok(pieces, st, rec, succ, cl, size),
        subtables_framed(pieces, st) ==> all_base(pieces, st, t, rank, size),
        ranked_before(t, rank, step),
        pending_scanned(pieces, t, rec, size),
        settled_known(dn2, t, queue, from, size),
        losses_answered(done, t, rec, succ, size),
        queue_ok(queue, t, size),
        0 <= from <= queue.len(),
    ensures
        all_framed(pieces, t.update(u, x)),
        subtables_framed(pieces, st) ==> forall|i: int|
            0 <= i < size && i != u ==> #[trigger] base_ok(pieces, st, t.update(u, x), rank.update(u, step), i),
        ranked_before(t.update(u, x), rank.update(u, step), step + 1),
        pending_scanned(pieces, t.update(u, x), rec, size),
        settled_known(dn2, t.update(u, x), queue.push(u as usize), from, size),
        losses_answered(done, t.update(u, x), rec, succ, size),
        queue_ok(queue.push(u as usize), t.update(u, x), size),
        !dn2[u],
{
    let t2 = t.update(u, x);
    let r2 = rank.update(u, step);
    let q2 = queue.push(u as usize);
    assert(scanned(pieces, st, u, succ[u], cl[u]));
    assert forall|a: int| 0 <= a < t2.len() implies #[trigger] frame_ok(pieces, t2, a) by {
        assert(frame_ok(pieces, t, a));
    }
    if subtables_framed(pieces, st) {
        assert forall|i: int| 0 <= i < size && i != u implies #[trigger] base_ok(pieces, st, t2, r2, i) by {
            assert(base_ok(pieces, st, t, rank, i));
            lemma_base_keep(pieces, st, t, rank, i, u, x, step);
        }
    }
    assert forall|a: int| 0 <= a < t2.len() && #[trigger] t2[a] != TB_DRAW implies r2[a] < step + 1 by {
        if a != u {
            assert(t[a] != TB_DRAW);
        }
    }
    assert forall|w: int| 0 <= w < size && #[trigger] pending(pieces, t2, w) implies rec[w] by {
        assert(pending(pieces, t, w));
    }
    assert forall|c: int|
        0 <= c < size && #[trigger] t2[c] != TB_DRAW implies dn2[c] || q2.subrange(from, q2.len() as int).contains(
        c as usize,
    ) by {
        if c == u {
            assert(q2.subrange(from, q2.len() as int)[queue.len() - from] == u as usize);
        } else {
            assert(t[c] != TB_DRAW);
            if !dn2[c] {
                let k = choose|k: int|
                    0 <= k < queue.subrange(from, queue.len() as int).len() && queue.subrange(from, queue.len() as int)[k]
                        == c as usize;
                assert(q2.subrange(from, q2.len() as int)[k] == c as usize);
            }
        }
    }
    assert forall|c: int| 0 <= c < size && #[trigger] dn2[c] implies t2[c] != TB_DRAW by {
        assert(t[c] != TB_DRAW);
    }
    assert forall|v: int, w: int|
        0 <= v < size && 0 <= w < size && #[trigger] done[v] && t2[v] == TB_LOSS && #[trigger] rec[w] && count_of(
            succ[w],
            v,
        ) > 0 implies t2[w] != TB_DRAW by {
        assert(dn2[v]);
        assert(t[v] != TB_DRAW);
        assert(v != u);
        if w != u {
            assert(t[w] != TB_DRAW);
        }
    }
    assert forall|k: int| 0 <= k < q2.len() implies (#[trigger] q2[k] as int) < size && t2[q2[k] as int] != TB_DRAW by {
        if k < queue.len() {
            assert(q2[k] == queue[k]);
            assert(t[queue[k] as int] != TB_DRAW);
        }
    }
    if dn2[u] {
        assert(t[u] != TB_DRAW);
    }
}

/// When the queue is empty, an undecided scanned entry is a true draw: no move hands the
/// opponent a loss, and some move does not hand the opponent a win.
proof fn lemma_retro_draw(
    pieces: Seq<u8>,
    st: Map<Seq<u8>, Seq<u8>>,
    t: Seq<u8>,
    cl: Seq<bool>,
    rec: Seq<bool>,
    succ: Seq<Seq<int>>,
    done: Seq<bool>,
    queue: Seq<usize>,
    size: int,
    x: int,
)
    requires
        subtables_framed(pieces, st),
        subtables_ready(pieces, st),
        size == t.len(),
        size == tablebase::table_size(pieces.len()),
        cl.len() == size,
        rec.len() == size,
        succ.len() == size,
        done.len() == size,
        all_framed(pieces, t),
        scans_ok(pieces, st, rec, succ, cl, size),
        undone_positive(rec, succ, done, t, cl, size),
        settled_known(done, t, queue, queue.len() as int, size),
        losses_answered(done, t, rec, succ, size),
        0 <= x < size,
        rec[x],
        t[x] == TB_DRAW,
    ensures
        draw_ok(pieces, st, t, tb_position(pieces, x)),
{
    let p = tb_position(pieces, x);
    let s = succ[x];
    assert(scanned(pieces, st, x, s, cl[x]));
    assert forall|c: int| 0 <= c < size && #[trigger] t[c] != TB_DRAW implies done[c] by {
        assert(queue.subrange(queue.len() as int, queue.len() as int).len() == 0);
    }
    assert forall|m: (u8, u8), c: Parsed| #[trigger] is_child(p, m, c) implies child_value(pieces, st, t, c) != TB_LOSS by {
        assert(!wins_at_once(st, p, m, c));
        if p.squares[m.1 as int] == 0 {
            let ci = lemma_quiet_child(pieces, st, t, x, p, m, c);
            assert(frame_ok(pieces, t, ci));
            assert(quiet_listed(pieces, p, s));
            assert(s.contains(ci));
            lemma_count_pos(s, ci);
            if t[ci] == TB_LOSS {
                assert(done[ci]);
                assert(rec[x]);
            }
        } else {
            lemma_capture_child(pieces, st, x, p, m, c);
            lemma_outside(pieces, st, t, c);
        }
    }
    if !cl[x] {
        let (m, c) = choose|m: (u8, u8), c: Parsed|
            #[trigger] is_child(p, m, c) && p.squares[m.1 as int] != 0 && status::has_pieces(c, c.turn) && capture_read(st, c)
                == TB_DRAW;
        assert(!wins_at_once(st, p, m, c));
        lemma_capture_child(pieces, st, x, p, m, c);
        lemma_outside(pieces, st, t, c);
        assert(is_child(p, m, c) && child_value(pieces, st, t, c) != TB_WIN);
    } else {
        assert(rec[x]);
        assert(undone(s, done, t) > 0);
        let b = lemma_undone_pos(s, done, t);
        let ci = s[b];
        assert(quiet_at(pieces, p, s, b));
        let (m, c) = choose|m: (u8, u8), c: Parsed|
            #[trigger] is_child(p, m, c) && p.squares[m.1 as int] == 0 && s[b] == tablebase::tb_index_spec(pieces, c);
        assert(!wins_at_once(st, p, m, c));
        let cj = lemma_quiet_child(pieces, st, t, x, p, m, c);
        assert(cj == ci);
        assert(frame_ok(pieces, t, ci));
        if t[ci] == TB_WIN {
            assert(done[ci]);
        }
        assert(is_child(p, m, c) && child_value(pieces, st, t, c) != TB_WIN);
    }
}

/// When the queue is empty the table is the solution.
proof fn lemma_retro_final(
    pieces: Seq<u8>,
    st: Map<Seq<u8>, Seq<u8>>,
    t: Seq<u8>,
    rank: Seq<nat>,
    cl: Seq<bool>,
    rec: Seq<bool>,
    succ: Seq<Seq<int>>,
    done: Seq<bool>,
    queue: Seq<usize>,
    size: int,
)
    requires
        subtables_framed(pieces, st),
        subtables_ready(pieces, st),
        size == t.len(),
        size == tablebase::table_size(pieces.len()),
        rank.len() == size,
        cl.len() == size,
        rec.len() == size,
        succ.len() == size,
        done.len() == size,
        all_framed(pieces, t),
        scans_ok(pieces, st, rec, succ, cl, size),
        undone_positive(rec, succ, done, t, cl, size),
        settled_known(done, t, queue, queue.len() as int, size),
        losses_answered(done, t, rec, succ, size),
        pending_scanned(pieces, t, rec, size),
        all_base(pieces, st, t, rank, size),
    ensures
        is_solution(pieces, st, t),
{
    assert forall|x: int| 0 <= x < t.len() implies #[trigger] entry_ok(pieces, st, t, rank, x) by {
        assert(base_ok(pieces, st, t, rank, x));
        if tablebase::tb_valid(pieces, x) && !(status::status_spec(tb_position(pieces, x)) is Win) && t[x] == TB_DRAW {
            assert(pending(pieces, t, x));
            assert(rec[x]);
            lemma_retro_draw(pieces, st, t, cl, rec, succ, done, queue, size, x);
        }
    }
    assert(solved_with(pieces, st, t, rank));
}

/// Solves one material set by queue-based retrograde analysis over stored reverse edges:
/// finished games and positions with an immediate win seed the queue; a position becomes a
/// win when one of its quiet moves reaches a loss for the opponent, and a loss when its last
/// undecided quiet move reaches a win for the opponent and no capture reaches a sub-table draw;
/// positions never reached stay draws. Captures are read from the sub-tables in `store`; when
/// those are framed, the result is the solved table.
pub fn solve_set_retro(pieces: &[u8], store: &Store) -> (val: Vec<u8>)
    requires
        solvable(pieces@),
        subtables_ready(pieces@, store@),
        tablebase::table_size(pieces@.len()) <= u32::MAX,
    ensures
        val@.len() == tablebase::table_size(pieces@.len()),
        forall|i: int| 0 <= i < val@.len() ==> #[trigger] frame_ok(pieces@, val@, i),
        subtables_framed(pieces@, store@) ==> is_solution(pieces@, store@, val@),
        subtables_framed(pieces@, store@) ==> val@ == solution(pieces@, store@),
{
    let size = table_len(pieces.len());
    let ghost fr = subtables_framed(pieces@, store@);
    let mut val: Vec<u8> = vec![TB_DRAW; size];
    let mut deg: Vec<u32> = vec![0u32; size];
    let mut can_lose: Vec<bool> = vec![true; size];
    let mut preds: Vec<Vec<u32>> = Vec::new();
    let mut i: usize = 0;
    while i < size
        invariant
            0 <= i <= size,
            preds@.len() == i,
            forall|c: int| 0 <= c < i ==> (#[trigger] preds@[c])@.len() == 0,
        decreases size - i,
    {
        preds.push(Vec::new());
        i += 1;
    }
    let ghost mut rec: Seq<bool> = Seq::new(size as nat, |k: int| false);
    let ghost mut succ: Seq<Seq<int>> = Seq::new(size as nat, |k: int| Seq::<int>::empty());
    let ghost done0: Seq<bool> = Seq::new(size as nat, |k: int| false);
    let ghost rank0: Seq<nat> = Seq::new(size as nat, |k: int| 0nat);
    proof {
        assert forall|c: int, u: int| 0 <= c < size && 0 <= u < size implies #[trigger] count_of(preds@[c]@, u as u32) == if 0 <= u
            < 0 && rec[u] && !done0[c] {
            count_of(succ[u], c)
        } else {
            0
        } by {
            assert(preds@[c]@.len() == 0);
        }
    }
    let mut queue: Vec<usize> = Vec::new();
    let mut idx: usize = 0;
    while idx < size
        invariant
            0 <= idx <= size,
            size == tablebase::table_size(pieces@.len()),
            size <= u32::MAX,
            solvable(pieces@),
            subtables_ready(pieces@, store@),
            fr == subtables_framed(pieces@, store@),
            val@.len() == size,
            deg@.len() == size,
            can_lose@.len() == size,
            preds@.len() == size,
            rec.len() == size,
            succ.len() == size,
            done0 == Seq::new(size as nat, |k: int| false),
            rank0 == Seq::new(size as nat, |k: int| 0nat),
            forall|a: int| 0 <= a < idx ==> #[trigger] frame_ok(pieces@, val@, a),
            forall|a: int| idx <= a < size ==> #[trigger] val@[a] == TB_DRAW,
            forall|a: int| idx <= a < size ==> !#[trigger] rec[a],
            forall|a: int| idx <= a < size ==> (#[trigger] succ[a]).len() == 0,
            forall|a: int| idx <= a < size ==> #[trigger] can_lose@[a],
            scans_ok(pieces@, store@, rec, succ, can_lose@, idx as int),
            preds_ok(preds@, rec, succ, done0, idx as int, size as int),
            preds_bounded(preds@, size as int),
            forall|u: int| 0 <= u < idx && #[trigger] rec[u] ==> deg@[u] == succ[u].len(),
            lpos_ok(deg@, rec, val@, can_lose@, idx as int),
            forall|a: int| 0 <= a < idx && #[trigger] pending(pieces@, val@, a) ==> rec[a],
            fr ==> all_base(pieces@, store@, val@, rank0, idx as int),
            forall|a: int| 0 <= a < idx && #[trigger] val@[a] != TB_DRAW ==> queue@.contains(a as usize),
            queue_ok(queue@, val@, size as int),
        decreases size - idx,
    {
        let ghost old_val = val@;
        let ghost old_queue = queue@;
        let ghost old_rec = rec;
        let ghost old_succ = succ;
        let ghost old_deg = deg@;
        match tb_pos(pieces, idx) {
            Some(p) => {
                proof {
                    lemma_tb_pos_board(pieces@, idx as int, p);
                    lemma_tb_position(pieces@, idx as int, p);
                    lemma_board_facts(pieces@, idx as int, p);
                }
                match status_of(&p) {
                    Status::Win(c) => {
                        let v = if c == p.turn {
                            TB_WIN
                        } else {
                            TB_LOSS
                        };
                        val.set(idx, v);
                        queue.push(idx);
                        proof {
                            assert(frame_ok(pieces@, val@, idx as int));
                            if fr {
                                assert(base_ok(pieces@, store@, val@, rank0, idx as int));
                                assert forall|a: int| 0 <= a < idx implies #[trigger] base_ok(pieces@, store@, val@, rank0, a) by {
                                    assert(base_ok(pieces@, store@, old_val, rank0, a));
                                    lemma_base_keep(pieces@, store@, old_val, rank0, a, idx as int, v, 0);
                                    assert(rank0.update(idx as int, 0) =~= rank0);
                                }
                            }
                        }
                    },
                    _ => {
                        let (winning, fixed_draw, _, in_set, gs) = first_scan(pieces, store, &p, true, Ghost(idx as int));
                        if winning {
                            val.set(idx, TB_WIN);
                            queue.push(idx);
                            proof {
                                if fr {
                                    lemma_quick_win_entry(pieces@, store@, val@, rank0, idx as int, p);
                                    assert forall|a: int| 0 <= a < idx implies #[trigger] base_ok(pieces@, store@, val@, rank0, a) by {
                                        assert(base_ok(pieces@, store@, old_val, rank0, a));
                                        lemma_base_keep(pieces@, store@, old_val, rank0, a, idx as int, TB_WIN, 0);
                                        assert(rank0.update(idx as int, 0) =~= rank0);
                                    }
                                }
                            }
                        } else {
                            if fixed_draw {
                                can_lose.set(idx, false);
                            }
                            deg.set(idx, in_set.len() as u32);
                            let ghost rec1 = rec.update(idx as int, true);
                            proof {
                                assert(gs@.take(0) =~= Seq::<int>::empty());
                                assert forall|c: int, u: int| 0 <= c < size && 0 <= u < size implies #[trigger] count_of(
                                    preds@[c]@,
                                    u as u32,
                                ) == if 0 <= u < idx + 1 && rec1[u] && !done0[c] {
                                    count_of(succ.update(idx as int, gs@.take(0))[u], c)
                                } else {
                                    0
                                } by {
                                    assert(count_of(preds@[c]@, u as u32) == if 0 <= u < idx && rec[u] && !done0[c] {
                                        count_of(succ[u], c)
                                    } else {
                                        0
                                    });
                                }
                            }
                            let mut a: usize = 0;
                            while a < in_set.len()
                                invariant
                                    0 <= a <= in_set@.len(),
                                    preds@.len() == size,
                                    idx < size,
                                    size <= u32::MAX,
                                    rec.len() == size,
                                    succ.len() == size,
                                    rec1 == rec.update(idx as int, true),
                                    done0 == Seq::new(size as nat, |k: int| false),
                                    forall|b: int| 0 <= b < in_set@.len() ==> #[trigger] in_set@[b] as int == gs@[b],
                                    in_set@.len() == gs@.len(),
                                    forall|b: int| 0 <= b < gs@.len() ==> 0 <= #[trigger] gs@[b] < size,
                                    preds_ok(preds@, rec1, succ.update(idx as int, gs@.take(a as int)), done0, idx + 1, size as int),
                                    preds_bounded(preds@, size as int),
                                decreases in_set@.len() - a,
                            {
                                let c = in_set[a] as usize;
                                let ghost before = preds@;
                                preds[c].push(idx as u32);
                                proof {
                                    assert(preds@[c as int]@ == before[c as int]@.push(idx as u32));
                                    let s0 = succ.update(idx as int, gs@.take(a as int));
                                    let s1 = succ.update(idx as int, gs@.take(a + 1));
                                    assert(in_set@[a as int] as int == gs@[a as int]);
                                    assert forall|cc: int, u: int| 0 <= cc < size && 0 <= u < size implies #[trigger] count_of(
                                        preds@[cc]@,
                                        u as u32,
                                    ) == if 0 <= u < idx + 1 && rec1[u] && !done0[cc] {
                                        count_of(s1[u], cc)
                                    } else {
                                        0
                                    } by {
                                        assert(count_of(before[cc]@, u as u32) == if 0 <= u < idx + 1 && rec1[u] && !done0[cc] {
                                            count_of(s0[u], cc)
                                        } else {
                                            0
                                        });
                                        lemma_count_take(gs@, a as int, cc);
                                        if cc == c as int {
                                            lemma_count_push(before[cc]@, idx as u32, u as u32);
                                        } else {
                                            assert(preds@[cc] == before[cc]);
                                        }
                                    }
                                    assert forall|cc: int, b: int| 0 <= cc < size && 0 <= b < preds@[cc]@.len() implies (#[trigger] preds@[cc]@[b] as int)
                                        < size by {
                                        if cc != c as int {
                                            assert(preds@[cc] == before[cc]);
                                        } else if b < before[cc]@.len() {
                                            assert(preds@[cc]@[b] == before[cc]@[b]);
                                        }
                                    }
                                }
                                a += 1;
                            }
                            proof {
                                assert(gs@.take(gs@.len() as int) =~= gs@);
                                rec = rec1;
                                succ = succ.update(idx as int, gs@);
                                assert(scanned(pieces@, store@, idx as int, gs@, can_lose@[idx as int]));
                            }
                            if in_set.len() == 0 && !fixed_draw {
                                val.set(idx, TB_LOSS);
                                queue.push(idx);
                                proof {
                                    if fr {
                                        lemma_loss_entry(pieces@, store@, val@, rank0, idx as int, gs@);
                                        assert forall|a: int| 0 <= a < idx implies #[trigger] base_ok(pieces@, store@, val@, rank0, a) by {
                                            assert(base_ok(pieces@, store@, old_val, rank0, a));
                                            lemma_base_keep(pieces@, store@, old_val, rank0, a, idx as int, TB_LOSS, 0);
                                            assert(rank0.update(idx as int, 0) =~= rank0);
                                        }
                                    }
                                }
                            }
                        }
                    },
                }
            },
            None => {},
        }
        proof {
            assert forall|a: int| 0 <= a < idx + 1 implies #[trigger] frame_ok(pieces@, val@, a) by {
                if a < idx {
                    assert(frame_ok(pieces@, old_val, a));
                }
            }
            assert forall|u: int| 0 <= u < idx + 1 && #[trigger] rec[u] implies scanned(pieces@, store@, u, succ[u], can_lose@[u]) by {
                if u < idx {
                    assert(old_rec[u]);
                    assert(scanned(pieces@, store@, u, old_succ[u], can_lose@[u]));
                }
            }
            assert forall|u: int| 0 <= u < idx + 1 && !#[trigger] rec[u] implies succ[u].len() == 0 by {
                if u < idx {
                    assert(!old_rec[u]);
                }
            }
            if !rec[idx as int] {
                assert(rec == old_rec);
                assert(succ == old_succ);
                assert forall|c: int, u: int| 0 <= c < size && 0 <= u < size implies #[trigger] count_of(preds@[c]@, u as u32)
                    == if 0 <= u < idx + 1 && rec[u] && !done0[c] {
                    count_of(succ[u], c)
                } else {
                    0
                } by {
                    assert(count_of(preds@[c]@, u as u32) == if 0 <= u < idx && rec[u] && !done0[c] {
                        count_of(succ[u], c)
                    } else {
                        0
                    });
                }
            }
            assert forall|u: int| 0 <= u < idx + 1 && #[trigger] rec[u] implies deg@[u] == succ[u].len() by {
                if u < idx {
                    assert(old_rec[u]);
                    assert(old_deg[u] == old_succ[u].len());
                }
            }
            assert forall|u: int| 0 <= u < idx + 1 && u != -1 && #[trigger] rec[u] && val@[u] == TB_DRAW && can_lose@[u] implies deg@[u]
                > 0 by {
                if u < idx {
                    assert(old_rec[u]);
                    assert(old_val[u] == TB_DRAW);
                }
            }
            assert forall|a: int| 0 <= a < idx + 1 && #[trigger] pending(pieces@, val@, a) implies rec[a] by {
                if a < idx {
                    assert(pending(pieces@, old_val, a));
                    assert(old_rec[a]);
                }
            }
            assert forall|a: int| 0 <= a < idx + 1 && #[trigger] val@[a] != TB_DRAW implies queue@.contains(a as usize) by {
                if a < idx {
                    assert(old_val[a] != TB_DRAW);
                    let k = choose|k: int| 0 <= k < old_queue.len() && old_queue[k] == a as usize;
                    assert(queue@[k] == a as usize);
                } else {
                    assert(queue@[queue@.len() - 1] == idx);
                }
            }
            assert forall|k: int| 0 <= k < queue@.len() implies (#[trigger] queue@[k] as int) < size && val@[queue@[k] as int]
                != TB_DRAW by {
                if k < old_queue.len() {
                    assert(queue@[k] == old_queue[k]);
                    assert(old_val[old_queue[k] as int] != TB_DRAW);
                }
            }
            if fr {
                assert forall|a: int| 0 <= a < idx + 1 implies #[trigger] base_ok(pieces@, store@, val@, rank0, a) by {
                    if a < idx && val@ == old_val {
                        assert(base_ok(pieces@, store@, old_val, rank0, a));
                    }
                }
            }
        }
        idx += 1;
    }
    let ghost mut done: Seq<bool> = done0;
    let ghost mut rank: Seq<nat> = rank0;
    let ghost mut step: nat = 1;
    proof {
        assert forall|u: int|
            0 <= u < size && #[trigger] rec[u] && val@[u] == TB_DRAW implies (deg@[u] + if false {
            count_of(Seq::<u32>::empty().take(0), u as u32)
        } else {
            0
        }) == undone(succ[u], done, val@) + (if false {
            count_of(Seq::<u32>::empty(), u as u32)
        } else {
            0
        }) by {
            assert(scanned(pieces@, store@, u, succ[u], can_lose@[u]));
            lemma_undone_fresh(succ[u], done, val@);
        }
        assert forall|c: int|
            0 <= c < size && #[trigger] val@[c] != TB_DRAW implies done[c] || queue@.subrange(0, queue@.len() as int).contains(
            c as usize,
        ) by {
            assert(queue@.subrange(0, queue@.len() as int) =~= queue@);
        }
        assert forall|a: int| 0 <= a < val@.len() && #[trigger] val@[a] != TB_DRAW implies rank[a] < step by {}
    }
    let mut qi: usize = 0;
    while qi < queue.len()
        invariant
            0 <= qi <= queue@.len(),
            size == tablebase::table_size(pieces@.len()),
            size <= u32::MAX,
            solvable(pieces@),
            subtables_ready(pieces@, store@),
            fr == subtables_framed(pieces@, store@),
            val@.len() == size,
            deg@.len() == size,
            can_lose@.len() == size,
            preds@.len() == size,
            rec.len() == size,
            succ.len() == size,
            done.len() == size,
            rank.len() == size,
            all_framed(pieces@, val@),
            scans_ok(pieces@, store@, rec, succ, can_lose@, size as int),
            preds_ok(preds@, rec, succ, done, size as int, size as int),
            preds_bounded(preds@, size as int),
            deg_ok(deg@, rec, succ, done, val@, can_lose@, size as int, Seq::empty(), 0, false),
            lpos_ok(deg@, rec, val@, can_lose@, size as int),
            settled_known(done, val@, queue@, qi as int, size as int),
            losses_answered(done, val@, rec, succ, size as int),
            pending_scanned(pieces@, val@, rec, size as int),
            fr ==> all_base(pieces@, store@, val@, rank, size as int),
            ranked_before(val@, rank, step),
            queue_ok(queue@, val@, size as int),
        decreases queue@.len() - qi + 2 * draw_count(val@, size as int),
    {
        let v = queue[qi];
        let vv = val[v];
        proof {
            assert(val@[queue@[qi as int] as int] != TB_DRAW);
            assert(frame_ok(pieces@, val@, v as int));
        }
        let ghost before = preds@;
        let mut list: Vec<u32> = Vec::new();
        std::mem::swap(&mut list, &mut preds[v]);
        let ghost dn2 = done.update(v as int, true);
        proof {
            assert(list@ == before[v as int]@);
            assert(preds@[v as int]@.len() == 0);
            assert forall|u: int| 0 <= u < size implies #[trigger] count_of(list@, u as u32) == if rec[u] && !done[v as int] {
                count_of(succ[u], v as int)
            } else {
                0
            } by {
                assert(count_of(before[v as int]@, u as u32) == if 0 <= u < size && rec[u] && !done[v as int] {
                    count_of(succ[u], v as int)
                } else {
                    0
                });
            }
            assert forall|b: int| 0 <= b < list@.len() implies (#[trigger] list@[b] as int) < size by {
                assert(before[v as int]@[b] == list@[b]);
            }
            if done[v as int] && list@.len() > 0 {
                let u0 = list@[0] as int;
                assert(list@.contains(list@[0]));
                lemma_count_pos(list@, list@[0]);
                assert(count_of(list@, u0 as u32) == 0);
            }
            assert forall|c: int, u: int| 0 <= c < size && 0 <= u < size implies #[trigger] count_of(preds@[c]@, u as u32) == if 0
                <= u < size && rec[u] && !dn2[c] {
                count_of(succ[u], c)
            } else {
                0
            } by {
                if c != v as int {
                    assert(preds@[c] == before[c]);
                    assert(count_of(before[c]@, u as u32) == if 0 <= u < size && rec[u] && !done[c] {
                        count_of(succ[u], c)
                    } else {
                        0
                    });
                } else {
                    assert(preds@[c]@ =~= Seq::<u32>::empty());
                }
            }
            assert forall|c: int, b: int| 0 <= c < size && 0 <= b < preds@[c]@.len() implies (#[trigger] preds@[c]@[b] as int) < size by {
                assert(preds@[c] == before[c]);
            }
            assert forall|u: int|
                0 <= u < size && #[trigger] rec[u] && val@[u] == TB_DRAW implies (deg@[u] + if vv == TB_WIN {
                count_of(list@.take(0), u as u32)
            } else {
                0
            }) == undone(succ[u], dn2, val@) + (if vv == TB_WIN {
                count_of(list@, u as u32)
            } else {
                0
            }) by {
                assert(scanned(pieces@, store@, u, succ[u], can_lose@[u]));
                assert(list@.take(0) =~= Seq::<u32>::empty());
                assert(deg@[u] == undone(succ[u], done, val@));
                if done[v as int] {
                    assert(dn2 =~= done);
                } else if vv == TB_WIN {
                    lemma_undone_mark_win(succ[u], done, val@, v as int);
                } else {
                    lemma_undone_mark(succ[u], done, val@, v as int);
                }
            }
            assert forall|c: int| 0 <= c < size && #[trigger] dn2[c] implies val@[c] != TB_DRAW by {
                if c != v as int {
                    assert(done[c]);
                }
            }
            assert forall|c: int|
                0 <= c < size && #[trigger] val@[c] != TB_DRAW implies dn2[c] || queue@.subrange(qi + 1, queue@.len() as int).contains(
                c as usize,
            ) by {
                if !done[c] && c != v as int {
                    let k = choose|k: int|
                        0 <= k < queue@.subrange(qi as int, queue@.len() as int).len() && queue@.subrange(
                            qi as int,
                            queue@.len() as int,
                        )[k] == c as usize;
                    assert(k != 0);
                    assert(queue@.subrange(qi + 1, queue@.len() as int)[k - 1] == c as usize);
                }
            }
        }
        let ghost q0 = queue@.len();
        let ghost d0 = draw_count(val@, size as int);
        let mut a: usize = 0;
        while a < list.len()
            invariant
                0 <= a <= list@.len(),
                qi < q0 <= queue@.len(),
                size == tablebase::table_size(pieces@.len()),
                size <= u32::MAX,
                solvable(pieces@),
                subtables_ready(pieces@, store@),
                fr == subtables_framed(pieces@, store@),
                val@.len() == size,
                deg@.len() == size,
                can_lose@.len() == size,
                preds@.len() == size,
                rec.len() == size,
                succ.len() == size,
                done.len() == size,
                rank.len() == size,
                v < size,
                vv == val@[v as int],
                vv == TB_WIN || vv == TB_LOSS,
                dn2 == done.update(v as int, true),
                list_ok(list@, rec, succ, done, v as int, size as int),
                done[v as int] ==> list@.len() == 0,
                all_framed(pieces@, val@),
                scans_ok(pieces@, store@, rec, succ, can_lose@, size as int),
                preds_ok(preds@, rec, succ, dn2, size as int, size as int),
                preds_bounded(preds@, size as int),
                deg_ok(deg@, rec, succ, dn2, val@, can_lose@, size as int, list@, a as int, vv == TB_WIN),
                lpos_ok(deg@, rec, val@, can_lose@, size as int),
                settled_known(dn2, val@, queue@, qi + 1, size as int),
                losses_answered(done, val@, rec, succ, size as int),
                vv == TB_LOSS ==> forall|b: int| 0 <= b < a ==> val@[#[trigger] list@[b] as int] != TB_DRAW,
                pending_scanned(pieces@, val@, rec, size as int),
                fr ==> all_base(pieces@, store@, val@, rank, size as int),
                ranked_before(val@, rank, step),
                queue_ok(queue@, val@, size as int),
                queue@.len() + 2 * draw_count(val@, size as int) <= q0 + 2 * d0,
            decreases list@.len() - a,
        {
            let u = list[a] as usize;
            let ghost uu = u as int;
            proof {
                assert((list@[a as int] as int) < size);
                assert(list@[a as int] == u as u32);
                lemma_count_take(list@, a as int, u as u32);
                lemma_count_take_le(list@, a + 1, u as u32);
            }
            let ghost old_deg = deg@;
            let ghost old_val = val@;
            if val[u] == TB_DRAW {
                proof {
                    assert(count_of(list@, u as u32) >= 1);
                    assert(rec[uu] && !done[v as int]);
                    assert(scanned(pieces@, store@, uu, succ[uu], can_lose@[uu]));
                }
                let mut settle: u8 = TB_DRAW;
                if vv == TB_LOSS {
                    settle = TB_WIN;
                } else {
                    proof {
                        assert(deg@[uu] + count_of(list@.take(a as int), u as u32) == undone(succ[uu], dn2, val@) + count_of(
                            list@,
                            u as u32,
                        ));
                    }
                    deg.set(u, deg[u] - 1);
                    if deg[u] == 0 && can_lose[u] {
                        settle = TB_LOSS;
                    }
                }
                if settle != TB_DRAW {
                    let ghost old_rank = rank;
                    let ghost old_queue = queue@;
                    proof {
                        lemma_retro_settle(
                            pieces@,
                            store@,
                            old_val,
                            old_rank,
                            step,
                            can_lose@,
                            rec,
                            succ,
                            done,
                            dn2,
                            old_queue,
                            qi + 1,
                            size as int,
                            uu,
                            settle,
                        );
                    }
                    val.set(u, settle);
                    queue.push(u);
                    proof {
                        rank = rank.update(uu, step);
                        lemma_draw_count_settle(old_val, uu, settle, size as int);
                        if fr {
                            if settle == TB_WIN {
                                lemma_count_pos(succ[uu], v as int);
                                lemma_win_entry(pieces@, store@, val@, rank, uu, succ[uu], can_lose@[uu], v as int);
                            } else {
                                assert(undone(succ[uu], dn2, old_val) == 0);
                                lemma_undone_zero(succ[uu], dn2, old_val);
                                assert forall|b: int| 0 <= b < succ[uu].len() implies val@[#[trigger] succ[uu][b]] == TB_WIN
                                    && rank[succ[uu][b]] < rank[uu] && frame_ok(pieces@, val@, succ[uu][b]) by {
                                    let w = succ[uu][b];
                                    assert(dn2[w] && old_val[w] == TB_WIN);
                                    assert(w != uu);
                                    assert(old_rank[w] < step);
                                }
                                lemma_loss_entry(pieces@, store@, val@, rank, uu, succ[uu]);
                            }
                            assert forall|x: int| 0 <= x < size implies #[trigger] base_ok(pieces@, store@, val@, rank, x) by {
                                if x != uu {
                                    assert(base_ok(pieces@, store@, old_val.update(uu, settle), old_rank.update(uu, step), x));
                                }
                            }
                        }
                        assert forall|w: int|
                            0 <= w < size && #[trigger] rec[w] && val@[w] == TB_DRAW implies (deg@[w] + if vv == TB_WIN {
                            count_of(list@.take(a + 1), w as u32)
                        } else {
                            0
                        }) == undone(succ[w], dn2, val@) + (if vv == TB_WIN {
                            count_of(list@, w as u32)
                        } else {
                            0
                        }) by {
                            assert(w != uu);
                            assert(old_val[w] == TB_DRAW);
                            assert(scanned(pieces@, store@, w, succ[w], can_lose@[w]));
                            lemma_undone_settle(succ[w], dn2, old_val, uu, settle);
                            lemma_count_take(list@, a as int, w as u32);
                        }
                        assert forall|w: int| 0 <= w < size && w != -1 && #[trigger] rec[w] && val@[w] == TB_DRAW && can_lose@[w] implies deg@[w]
                            > 0 by {
                            assert(w != uu);
                            assert(old_val[w] == TB_DRAW);
                        }
                        step = step + 1;
                    }
                } else {
                    proof {
                        assert forall|w: int|
                            0 <= w < size && #[trigger] rec[w] && val@[w] == TB_DRAW implies (deg@[w] + if vv == TB_WIN {
                            count_of(list@.take(a + 1), w as u32)
                        } else {
                            0
                        }) == undone(succ[w], dn2, val@) + (if vv == TB_WIN {
                            count_of(list@, w as u32)
                        } else {
                            0
                        }) by {
                            lemma_count_take(list@, a as int, w as u32);
                        }
                    }
                }
            } else {
                proof {
                    assert forall|w: int|
                        0 <= w < size && #[trigger] rec[w] && val@[w] == TB_DRAW implies (deg@[w] + if vv == TB_WIN {
                        count_of(list@.take(a + 1), w as u32)
                    } else {
                        0
                    }) == undone(succ[w], dn2, val@) + (if vv == TB_WIN {
                        count_of(list@, w as u32)
                    } else {
                        0
                    }) by {
                        lemma_count_take(list@, a as int, w as u32);
                    }
                }
            }
            a += 1;
        }
        proof {
            assert(list@.take(list@.len() as int) =~= list@);
            assert forall|v2: int, u2: int|
                0 <= v2 < size && 0 <= u2 < size && #[trigger] dn2[v2] && val@[v2] == TB_LOSS && #[trigger] rec[u2] && count_of(
                    succ[u2],
                    v2,
                ) > 0 implies val@[u2] != TB_DRAW by {
                if v2 == v as int && !done[v2] {
                    assert(count_of(list@, u2 as u32) > 0);
                    lemma_count_pos(list@, u2 as u32);
                    let b = choose|b: int| 0 <= b < list@.len() && list@[b] == u2 as u32;
                    assert(val@[list@[b] as int] != TB_DRAW);
                } else {
                    assert(done[v2]);
                }
            }
            assert forall|w: int|
                0 <= w < size && #[trigger] rec[w] && val@[w] == TB_DRAW implies (deg@[w] + if false {
                count_of(Seq::<u32>::empty().take(0), w as u32)
            } else {
                0
            }) == undone(succ[w], dn2, val@) + (if false {
                count_of(Seq::<u32>::empty(), w as u32)
            } else {
                0
            }) by {
                assert(deg_ok(deg@, rec, succ, dn2, val@, can_lose@, size as int, list@, list@.len() as int, vv == TB_WIN));
            }
            done = dn2;
        }
        qi += 1;
    }
    proof {
        if fr {
            assert forall|u: int| 0 <= u < size && #[trigger] rec[u] && val@[u] == TB_DRAW && can_lose@[u] implies undone(
                succ[u],
                done,
                val@,
            ) > 0 by {
                assert(deg@[u] > 0);
            }
            lemma_retro_final(pieces@, store@, val@, rank, can_lose@, rec, succ, done, queue@, size as int);
            lemma_is_the_solution(pieces@, store@, val@);
        }
    }
    val
}

/// Is `to` among the destinations of `ms`?
fn reaches(ms: &Vec<(u8, u8)>, to: usize) -> (r: bool)
    ensures
        r == exists|k: int| 0 <= k < ms@.len() && #[trigger] ms@[k].1 as int == to,
{
    let mut k: usize = 0;
    while k < ms.len()
        invariant
            0 <= k <= ms@.len(),
            forall|j: int| 0 <= j < k ==> #[trigger] ms@[j].1 as int != to,
        decreases ms@.len() - k,
    {
        if ms[k].1 as usize == to {
            return true;
        }
        k += 1;
    }
    false
}

// ── Predecessors by taking moves back ──────────────────────────────────────

/// The position of index `u` has the legal quiet move `m` into a position of index `vi`.
pub open spec fn is_pred(pieces: Seq<u8>, vi: int, u: int, m: (u8, u8)) -> bool {
    let p = tb_position(pieces, u);
    &&& tablebase::tb_valid(pieces, u)
    &&& p.squares[m.1 as int] == 0
    &&& exists|c: Parsed| #[trigger] is_child(p, m, c) && tablebase::tb_index_spec(pieces, c) == vi
}

/// `u` is a valid index of the table whose position has a quiet move into index `vi`.
pub open spec fn pred_entry(pieces: Seq<u8>, vi: int, u: int) -> bool {
    &&& 0 <= u < tablebase::table_size(pieces.len())
    &&& tablebase::tb_valid(pieces, u)
    &&& exists|m: (u8, u8)| #[trigger] is_pred(pieces, vi, u, m)
}

/// `u` is a predecessor index whose board is `vs` with the piece on `t` taken back to `c`.
pub open spec fn unmoved_entry(pieces: Seq<u8>, vi: int, vs: Seq<u8>, u: int, t: int, c: int) -> bool {
    &&& pred_entry(pieces, vi, u)
    &&& tb_position(pieces, u).squares@ == board::moved_squares(vs, t, c)
    &&& 0 <= t < 63
    &&& 0 <= c < 63
    &&& vs[t] != 0
    &&& vs[c] == 0
}

/// Two different moves taken back from one board give two different boards.
proof fn lemma_unmoved_apart(v: Seq<u8>, t1: int, c1: int, t2: int, c2: int)
    requires
        v.len() == 63,
        0 <= t1 < 63,
        0 <= c1 < 63,
        0 <= t2 < 63,
        0 <= c2 < 63,
        v[t1] != 0,
        v[t2] != 0,
        v[c1] == 0,
        v[c2] == 0,
        t1 != t2 || c1 != c2,
    ensures
        board::moved_squares(v, t1, c1) != board::moved_squares(v, t2, c2),
{
    let a = board::moved_squares(v, t1, c1);
    let b = board::moved_squares(v, t2, c2);
    if t1 != t2 {
        assert(a[t1] != b[t1]);
    } else {
        assert(a[c1] != b[c1]);
    }
}

/// What a live predecessor's move says of the board it reaches: that board is the position of
/// `vi`, the moved piece can go back, and the predecessor's index is `u`.
proof fn lemma_pred_board(pieces: Seq<u8>, vi: int, v: Parsed, u: int, m: (u8, u8))
    requires
        tablebase::distinct_codes(pieces),
        0 <= vi < tablebase::table_size(pieces.len()),
        tablebase::tb_valid(pieces, vi),
        tb_board(pieces, vi, v),
        0 <= u < tablebase::table_size(pieces.len()),
        is_pred(pieces, vi, u, m),
        live_board(pieces, u, tb_position(pieces, u)),
    ensures
        ({
            let p = tb_position(pieces, u);
            &&& m.0 < 63
            &&& m.1 < 63
            &&& m.0 != m.1
            &&& v.squares@ == board::moved_squares(p.squares@, m.0 as int, m.1 as int)
            &&& p.turn == 1 - v.turn
            &&& p.squares[m.1 as int] == 0
            &&& color_of(p.squares[m.0 as int]) == p.turn
            &&& movegen::moves_from_seq(p, m.0 as int).contains(m)
            &&& movegen::moves_from_seq(v, m.1 as int).contains((m.1, m.0))
            &&& p.progress == 0
            &&& p.movenum == 1
            &&& tablebase::tb_index_spec(pieces, p) == u
        }),
{
    let p = tb_position(pieces, u);
    let c = choose|c: Parsed| #[trigger] is_child(p, m, c) && tablebase::tb_index_spec(pieces, c) == vi;
    lemma_live_move(pieces, u, p, m, c);
    let st = Map::<Seq<u8>, Seq<u8>>::empty();
    let t = Seq::new(tablebase::table_size(pieces.len()), |k: int| 0u8);
    if m.1 == board::opp_den(p.turn) {
        lemma_live_move(pieces, u, p, m, c);
        lemma_child_facts(pieces, p, m, c);
        lemma_board_facts(pieces, u, p);
        let cs = c.squares@;
        let ps = p.squares@;
        tablebase::lemma_move_counts(ps, m.0 as int, m.1 as int, 1);
        assert forall|x: u8| 1 <= x implies #[trigger] tablebase::count_code(cs, x, 63) == (if pieces.contains(x) {
            1nat
        } else {
            0nat
        }) by {
            tablebase::lemma_move_counts(ps, m.0 as int, m.1 as int, x);
        }
        assert(tablebase::own_den_of(p.squares[m.0 as int]) == board::own_den(board::color_of(p.squares[m.0 as int])) as int);
        tablebase::lemma_placement_move(ps, m.0 as int, m.1 as int);
        tablebase::lemma_index_roundtrip(pieces, c);
    } else {
        let ci = lemma_quiet_child(pieces, st, t, u, p, m, c);
    }
    lemma_board_facts(pieces, vi, v);
    assert(c.squares@ == tablebase::placed_seq(pieces, vi, pieces.len() as int));
    assert(v.squares@ == c.squares@);
    movegen::lemma_legal_from(p, m);
    assert(p.squares[m.0 as int] == p.squares@[m.0 as int]);
    assert(tablebase::placement_ok(p.squares@));
    assert(p.squares@[m.0 as int] != 0);
    assert(tablebase::own_den_of(p.squares[m.0 as int]) == board::own_den(board::color_of(p.squares[m.0 as int])) as int);
    movegen::lemma_unmove(p, v, m);
    lemma_board_facts(pieces, u, p);
    tablebase::lemma_index_of_board(pieces, u, p);
}

/// Gathers into `preds` the table indices of the positions with a quiet move into `v`, the
/// position of index `vi`: for each piece of the side that just moved, each square it could
/// have come from is tried by taking the move back and confirming it forward. `cands` and
/// `umoves` are scratch space.
fn unmove_preds(
    pieces: &[u8],
    v: &Parsed,
    Ghost(vi): Ghost<int>,
    preds: &mut Vec<usize>,
    cands: &mut Vec<(u8, u8)>,
    umoves: &mut Vec<(u8, u8)>,
)
    requires
        solvable(pieces@),
        0 <= vi < tablebase::table_size(pieces@.len()),
        tablebase::tb_valid(pieces@, vi),
        tb_board(pieces@, vi, *v),
    ensures
        forall|b: int| 0 <= b < final(preds)@.len() ==> #[trigger] pred_entry(pieces@, vi, final(preds)@[b] as int),
        final(preds)@.no_duplicates(),
        forall|u: int, m: (u8, u8)|
            0 <= u < tablebase::table_size(pieces@.len()) && #[trigger] is_pred(pieces@, vi, u, m) && live_board(
                pieces@,
                u,
                tb_position(pieces@, u),
            ) ==> final(preds)@.contains(u as usize),
{
    let size = table_len(pieces.len());
    proof {
        lemma_board_facts(pieces@, vi, *v);
        tablebase::lemma_tb_board_placement(pieces@, vi, pieces@.len() as int);
        lemma_tb_position(pieces@, vi, *v);
    }
    preds.clear();
    let mover = 1 - v.turn;
    let mut lt: Ghost<Seq<int>> = Ghost(Seq::empty());
    let mut lc: Ghost<Seq<int>> = Ghost(Seq::empty());
    let mut to: usize = 0;
    while to < N
        invariant
            0 <= to <= 63,
            size == tablebase::table_size(pieces@.len()),
            solvable(pieces@),
            0 <= vi < size,
            tablebase::tb_valid(pieces@, vi),
            tb_board(pieces@, vi, *v),
            tb_position(pieces@, vi) == *v,
            board::valid_position(*v),
            mover == 1 - v.turn,
            tablebase::placement_ok(v.squares@),
            forall|x: u8| 1 <= x ==> #[trigger] tablebase::count_code(v.squares@, x, 63) == (if pieces@.contains(x) {
                1nat
            } else {
                0nat
            }),
            preds@.len() == lt@.len(),
            preds@.len() == lc@.len(),
            forall|b: int|
                0 <= b < preds@.len() ==> #[trigger] unmoved_entry(pieces@, vi, v.squares@, preds@[b] as int, lt@[b], lc@[b]),
            forall|b: int| 0 <= b < preds@.len() ==> #[trigger] lt@[b] < to,
            preds@.no_duplicates(),
            forall|u: int, m: (u8, u8)|
                0 <= u < size && #[trigger] is_pred(pieces@, vi, u, m) && live_board(pieces@, u, tb_position(pieces@, u)) && (m.1 as int)
                    < to ==> preds@.contains(u as usize),
        decreases 63 - to,
    {
        let code = v.squares[to];
        assert(v.squares[to as int] <= 16);
        if color_of(code) == mover {
            cands.clear();
            moves_from(v, to as u8, cands);
            proof {
                movegen::lemma_moves_from_ok(*v, to as int);
                movegen::lemma_moves_from_distinct(*v, to as int);
            }
            let mut lk: Ghost<Seq<int>> = Ghost(Seq::new(preds@.len(), |b: int| 0int));
            let mut ci: usize = 0;
            while ci < cands.len()
                invariant
                    0 <= ci <= cands@.len(),
                    0 <= to < 63,
                    cands@ == movegen::moves_from_seq(*v, to as int),
                    forall|a: int| 0 <= a < cands@.len() ==> #[trigger] movegen::land_ok(*v, to as int, cands@[a]),
                    forall|a: int, k: int| 0 <= a < k < cands@.len() ==> #[trigger] cands@[a].1 != #[trigger] cands@[k].1,
                    size == tablebase::table_size(pieces@.len()),
                    solvable(pieces@),
                    0 <= vi < size,
                    tablebase::tb_valid(pieces@, vi),
                    tb_board(pieces@, vi, *v),
                    tb_position(pieces@, vi) == *v,
                    board::valid_position(*v),
                    mover == 1 - v.turn,
                    code == v.squares[to as int],
                    color_of(code) == mover,
                    tablebase::placement_ok(v.squares@),
                    forall|x: u8| 1 <= x ==> #[trigger] tablebase::count_code(v.squares@, x, 63) == (if pieces@.contains(x) {
                        1nat
                    } else {
                        0nat
                    }),
                    preds@.len() == lt@.len(),
                    preds@.len() == lc@.len(),
                    preds@.len() == lk@.len(),
                    forall|b: int|
                        0 <= b < preds@.len() ==> #[trigger] unmoved_entry(pieces@, vi, v.squares@, preds@[b] as int, lt@[b], lc@[b]),
                    forall|b: int| 0 <= b < preds@.len() ==> #[trigger] lt@[b] <= to,
                    forall|b: int|
                        0 <= b < preds@.len() && #[trigger] lt@[b] == to ==> 0 <= lk@[b] < ci && cands@[lk@[b]].1 as int == lc@[b],
                    preds@.no_duplicates(),
                    forall|u: int, m: (u8, u8)|
                        0 <= u < size && #[trigger] is_pred(pieces@, vi, u, m) && live_board(pieces@, u, tb_position(pieces@, u)) && (m.1 as int)
                            < to ==> preds@.contains(u as usize),
                    forall|u: int, m: (u8, u8), k: int|
                        0 <= u < size && #[trigger] is_pred(pieces@, vi, u, m) && live_board(pieces@, u, tb_position(pieces@, u)) && m.1
                            as int == to && 0 <= k < ci && #[trigger] cands@[k] == (to as u8, m.0) ==> preds@.contains(u as usize),
                decreases cands@.len() - ci,
            {
                let cand = cands[ci].1;
                assert(movegen::land_ok(*v, to as int, cands@[ci as int]));
                let ghost old_preds = preds@;
                let ghost old_lt = lt@;
                let ghost old_lc = lc@;
                let ghost old_lk = lk@;
                if v.squares[cand as usize] == 0 {
                    let mut u = *v;
                    u.squares[cand as usize] = code;
                    u.squares[to] = 0;
                    u.turn = mover;
                    proof {
                        assert(u.squares@ =~= board::moved_squares(v.squares@, to as int, cand as int));
                        let jx = tablebase::lemma_child_key(pieces@, v.squares@, to as int, cand as int, u);
                        tablebase::lemma_tb_digits_bound(pieces@, u, pieces@.len() as int);
                        assert(v.squares[to as int] <= 16);
                        assert(tablebase::own_den_of(code) == board::own_den(color_of(code)) as int);
                        tablebase::lemma_placement_move(v.squares@, to as int, cand as int);
                        assert forall|x: u8| 1 <= x implies #[trigger] tablebase::count_code(u.squares@, x, 63) == (if pieces@.contains(x) {
                            1nat
                        } else {
                            0nat
                        }) by {
                            tablebase::lemma_move_counts(v.squares@, to as int, cand as int, x);
                        }
                        tablebase::lemma_index_roundtrip(pieces@, u);
                    }
                    umoves.clear();
                    moves_from(&u, cand, umoves);
                    let hit = reaches(umoves, to);
                    if hit {
                        let pi = tb_index(pieces, &u);
                        preds.push(pi);
                        lt = Ghost(lt@.push(to as int));
                        lc = Ghost(lc@.push(cand as int));
                        lk = Ghost(lk@.push(ci as int));
                        proof {
                            let k = choose|k: int| 0 <= k < umoves@.len() && #[trigger] umoves@[k].1 as int == to;
                            movegen::lemma_moves_from_ok(u, cand as int);
                            assert(movegen::land_ok(u, cand as int, umoves@[k]));
                            let mm: (u8, u8) = (cand, to as u8);
                            assert(umoves@[k] == mm);
                            assert(movegen::moves_from_seq(u, cand as int).contains(mm));
                            assert(u.squares[cand as int] == code);
                            movegen::lemma_from_legal(u, cand as int, mm);
                            assert(tb_board(pieces@, pi as int, u));
                            lemma_tb_position(pieces@, pi as int, u);
                            let c = Parsed {
                                squares: v.squares,
                                turn: v.turn,
                                progress: 1,
                                movenum: if u.turn == 1 {
                                    2
                                } else {
                                    1
                                },
                            };
                            assert(board::moved_squares(u.squares@, cand as int, to as int) =~= v.squares@);
                            assert(is_child(u, mm, c));
                            tablebase::lemma_index_of_board(pieces@, vi, *v);
                            assert(tablebase::tb_index_spec(pieces@, c) == vi);
                            assert(is_pred(pieces@, vi, pi as int, mm));
                            assert(pred_entry(pieces@, vi, pi as int));
                            assert(unmoved_entry(pieces@, vi, v.squares@, pi as int, to as int, cand as int));
                            assert forall|a: int, b: int| 0 <= a < preds@.len() && 0 <= b < preds@.len() && a != b implies preds@[a]
                                != preds@[b] by {
                                if a < old_preds.len() && b < old_preds.len() {
                                    assert(preds@[a] == old_preds[a]);
                                    assert(preds@[b] == old_preds[b]);
                                } else {
                                    let o = if a < old_preds.len() {
                                        a
                                    } else {
                                        b
                                    };
                                    assert(preds@[o] == old_preds[o]);
                                    assert(lt@[o] == old_lt[o]);
                                    assert(lc@[o] == old_lc[o]);
                                    assert(lk@[o] == old_lk[o]);
                                    assert(unmoved_entry(pieces@, vi, v.squares@, old_preds[o] as int, old_lt[o], old_lc[o]));
                                    if old_preds[o] == pi {
                                        if lt@[o] == to as int {
                                            assert(cands@[lk@[o]].1 != cands@[ci as int].1);
                                        }
                                        lemma_unmoved_apart(v.squares@, lt@[o], lc@[o], to as int, cand as int);
                                    }
                                }
                            }
                        }
                    }
                    proof {
                        assert forall|uu: int, m: (u8, u8), k: int|
                            0 <= uu < size && #[trigger] is_pred(pieces@, vi, uu, m) && live_board(pieces@, uu, tb_position(pieces@, uu)) && m.1
                                as int == to && 0 <= k < ci + 1 && #[trigger] cands@[k] == (to as u8, m.0) implies preds@.contains(
                            uu as usize,
                        ) by {
                            if k == ci {
                                lemma_pred_board(pieces@, vi, *v, uu, m);
                                let pp = tb_position(pieces@, uu);
                                assert(pp.squares =~= u.squares) by {
                                    broadcast use vstd::array::group_array_axioms;
                                    assert forall|s: int| 0 <= s < 63 implies pp.squares[s] == u.squares[s] by {
                                        assert(pp.squares@[s] == u.squares@[s]);
                                    }
                                }
                                assert(pp == u);
                                assert(umoves@ == movegen::moves_from_seq(u, cand as int));
                                let k2 = choose|k2: int| 0 <= k2 < umoves@.len() && umoves@[k2] == m;
                                assert(umoves@[k2].1 as int == to);
                                assert(preds@[preds@.len() - 1] == uu as usize);
                            } else {
                                assert(old_preds.contains(uu as usize));
                                let b = choose|b: int| 0 <= b < old_preds.len() && old_preds[b] == uu as usize;
                                assert(preds@[b] == uu as usize);
                            }
                        }
                    }
                } else {
                    proof {
                        assert forall|uu: int, m: (u8, u8), k: int|
                            0 <= uu < size && #[trigger] is_pred(pieces@, vi, uu, m) && live_board(pieces@, uu, tb_position(pieces@, uu)) && m.1
                                as int == to && 0 <= k < ci + 1 && #[trigger] cands@[k] == (to as u8, m.0) implies preds@.contains(
                            uu as usize,
                        ) by {
                            if k == ci {
                                lemma_pred_board(pieces@, vi, *v, uu, m);
                                assert(v.squares@[m.0 as int] == 0);
                            }
                        }
                    }
                }
                proof {
                    assert forall|b: int|
                        0 <= b < preds@.len() implies #[trigger] unmoved_entry(pieces@, vi, v.squares@, preds@[b] as int, lt@[b], lc@[b]) by {
                        if b < old_preds.len() {
                            assert(preds@[b] == old_preds[b]);
                            assert(lt@[b] == old_lt[b]);
                            assert(lc@[b] == old_lc[b]);
                        }
                    }
                    assert forall|b: int| 0 <= b < preds@.len() implies #[trigger] lt@[b] <= to by {
                        if b < old_preds.len() {
                            assert(lt@[b] == old_lt[b]);
                        }
                    }
                    assert forall|b: int| 0 <= b < preds@.len() && #[trigger] lt@[b] == to implies 0 <= lk@[b] < ci + 1
                        && cands@[lk@[b]].1 as int == lc@[b] by {
                        if b < old_preds.len() {
                            assert(lt@[b] == old_lt[b]);
                            assert(lc@[b] == old_lc[b]);
                            assert(lk@[b] == old_lk[b]);
                        }
                    }
                    assert forall|uu: int, m: (u8, u8)|
                        0 <= uu < size && #[trigger] is_pred(pieces@, vi, uu, m) && live_board(pieces@, uu, tb_position(pieces@, uu)) && (m.1
                            as int) < to implies preds@.contains(uu as usize) by {
                        assert(old_preds.contains(uu as usize));
                        let b = choose|b: int| 0 <= b < old_preds.len() && old_preds[b] == uu as usize;
                        assert(preds@[b] == uu as usize);
                    }
                }
                ci += 1;
            }
            proof {
                assert forall|u: int, m: (u8, u8)|
                    0 <= u < size && #[trigger] is_pred(pieces@, vi, u, m) && live_board(pieces@, u, tb_position(pieces@, u)) && (m.1 as int)
                        < to + 1 implies preds@.contains(u as usize) by {
                    if m.1 as int == to {
                        lemma_pred_board(pieces@, vi, *v, u, m);
                        let k = choose|k: int| 0 <= k < cands@.len() && cands@[k] == (m.1, m.0);
                        assert(cands@[k] == (to as u8, m.0));
                    }
                }
            }
        } else {
            proof {
                assert forall|u: int, m: (u8, u8)|
                    0 <= u < size && #[trigger] is_pred(pieces@, vi, u, m) && live_board(pieces@, u, tb_position(pieces@, u)) && (m.1 as int)
                        < to + 1 implies preds@.contains(u as usize) by {
                    if m.1 as int == to {
                        lemma_pred_board(pieces@, vi, *v, u, m);
                        let pp = tb_position(pieces@, u);
                        assert(v.squares@[to as int] == pp.squares@[m.0 as int]);
                        assert(pp.squares[m.0 as int] == pp.squares@[m.0 as int]);
                    }
                }
            }
        }
        to += 1;
    }
    proof {
        assert forall|b: int| 0 <= b < preds@.len() implies #[trigger] pred_entry(pieces@, vi, preds@[b] as int) by {
            assert(unmoved_entry(pieces@, vi, v.squares@, preds@[b] as int, lt@[b], lc@[b]));
        }
        assert forall|u: int, m: (u8, u8)|
            0 <= u < tablebase::table_size(pieces@.len()) && #[trigger] is_pred(pieces@, vi, u, m) && live_board(
                pieces@,
                u,
                tb_position(pieces@, u),
            ) implies preds@.contains(u as usize) by {
            lemma_pred_board(pieces@, vi, *v, u, m);
        }
    }
}

/// The counters of the on-the-fly solver, as `deg_ok` says for the stored-edge one.
pub open spec fn deg16_ok(
    deg: Seq<u16>,
    rec: Seq<bool>,
    succ: Seq<Seq<int>>,
    done: Seq<bool>,
    t: Seq<u8>,
    size: int,
    list: Seq<usize>,
    a: int,
    active: bool,
) -> bool {
    forall|u: int|
        0 <= u < size && #[trigger] rec[u] && t[u] == TB_DRAW ==> (deg[u] + if active {
            count_of(list.take(a), u as usize)
        } else {
            0
        }) == undone(succ[u], done, t) + (if active {
            count_of(list, u as usize)
        } else {
            0
        })
}

/// The counters of scanned entries that can still lose are positive.
pub open spec fn lpos16_ok(deg: Seq<u16>, rec: Seq<bool>, t: Seq<u8>, cl: Seq<bool>, size: int) -> bool {
    forall|u: int| 0 <= u < size && #[trigger] rec[u] && t[u] == TB_DRAW && cl[u] ==> deg[u] > 0
}

/// Every valid entry that was not scanned is decided.
pub open spec fn unscanned_decided(pieces: Seq<u8>, t: Seq<u8>, rec: Seq<bool>, size: int) -> bool {
    forall|u: int| 0 <= u < size && tablebase::tb_valid(pieces, u) && !#[trigger] rec[u] ==> t[u] != TB_DRAW
}

/// The predecessors gathered by taking moves back from the entry `vi` list each scanned entry
/// once per quiet move of it into `vi`.
proof fn lemma_onfly_list(
    pieces: Seq<u8>,
    st: Map<Seq<u8>, Seq<u8>>,
    vi: int,
    v: Parsed,
    list: Seq<usize>,
    rec: Seq<bool>,
    succ: Seq<Seq<int>>,
    cl: Seq<bool>,
    size: int,
)
    requires
        solvable(pieces),
        size == tablebase::table_size(pieces.len()),
        rec.len() == size,
        succ.len() == size,
        cl.len() == size,
        0 <= vi < size,
        tablebase::tb_valid(pieces, vi),
        tb_board(pieces, vi, v),
        scans_ok(pieces, st, rec, succ, cl, size),
        forall|b: int| 0 <= b < list.len() ==> #[trigger] pred_entry(pieces, vi, list[b] as int),
        list.no_duplicates(),
        forall|u: int, m: (u8, u8)|
            0 <= u < size && #[trigger] is_pred(pieces, vi, u, m) && live_board(pieces, u, tb_position(pieces, u))
                ==> list.contains(u as usize),
    ensures
        forall|u: int| 0 <= u < size && #[trigger] rec[u] ==> count_of(list, u as usize) == count_of(succ[u], vi),
{
    assert forall|u: int| 0 <= u < size && #[trigger] rec[u] implies count_of(list, u as usize) == count_of(succ[u], vi) by {
        let s = succ[u];
        let p = tb_position(pieces, u);
        assert(scanned(pieces, st, u, s, cl[u]));
        lemma_count_nodup(list, u as usize);
        lemma_count_nodup(s, vi);
        lemma_count_pos(list, u as usize);
        lemma_count_pos(s, vi);
        if list.contains(u as usize) {
            let b = choose|b: int| 0 <= b < list.len() && list[b] == u as usize;
            assert(pred_entry(pieces, vi, list[b] as int));
            let m = choose|m: (u8, u8)| #[trigger] is_pred(pieces, vi, u, m);
            let c = choose|c: Parsed| #[trigger] is_child(p, m, c) && tablebase::tb_index_spec(pieces, c) == vi;
            assert(quiet_listed(pieces, p, s));
            assert(s.contains(vi));
        }
        if s.contains(vi) {
            let a = choose|a: int| 0 <= a < s.len() && s[a] == vi;
            assert(quiet_at(pieces, p, s, a));
            let (m, c) = choose|m: (u8, u8), c: Parsed|
                #[trigger] is_child(p, m, c) && p.squares[m.1 as int] == 0 && s[a] == tablebase::tb_index_spec(pieces, c);
            assert(is_pred(pieces, vi, u, m));
        }
    }
}

/// Same retrograde analysis as `solve_set_retro`, without stored reverse edges: the positions
/// that reach a settled position by a quiet move are regenerated by un-moving one of the
/// mover's pieces to an empty square it could have come from, each candidate confirmed by
/// generating its moves forward. When the sub-tables are framed, the result is the solved
/// table.
pub fn solve_set_onfly(pieces: &[u8], store: &Store) -> (val: Vec<u8>)
    requires
        solvable(pieces@),
        subtables_ready(pieces@, store@),
    ensures
        val@.len() == tablebase::table_size(pieces@.len()),
        forall|i: int| 0 <= i < val@.len() ==> #[trigger] frame_ok(pieces@, val@, i),
        subtables_framed(pieces@, store@) ==> is_solution(pieces@, store@, val@),
        subtables_framed(pieces@, store@) ==> val@ == solution(pieces@, store@),
{
    let size = table_len(pieces.len());
    let ghost fr = subtables_framed(pieces@, store@);
    let mut val: Vec<u8> = vec![TB_DRAW; size];
    let mut deg: Vec<u16> = vec![0u16; size];
    let mut can_lose: Vec<bool> = vec![true; size];
    let ghost mut rec: Seq<bool> = Seq::new(size as nat, |k: int| false);
    let ghost mut succ: Seq<Seq<int>> = Seq::new(size as nat, |k: int| Seq::<int>::empty());
    let ghost done0: Seq<bool> = Seq::new(size as nat, |k: int| false);
    let ghost rank0: Seq<nat> = Seq::new(size as nat, |k: int| 0nat);
    let mut queue: Vec<usize> = Vec::new();
    let mut idx: usize = 0;
    while idx < size
        invariant
            0 <= idx <= size,
            size == tablebase::table_size(pieces@.len()),
            solvable(pieces@),
            subtables_ready(pieces@, store@),
            fr == subtables_framed(pieces@, store@),
            val@.len() == size,
            deg@.len() == size,
            can_lose@.len() == size,
            rec.len() == size,
            succ.len() == size,
            done0 == Seq::new(size as nat, |k: int| false),
            rank0 == Seq::new(size as nat, |k: int| 0nat),
            forall|a: int| 0 <= a < idx ==> #[trigger] frame_ok(pieces@, val@, a),
            forall|a: int| idx <= a < size ==> #[trigger] val@[a] == TB_DRAW,
            forall|a: int| idx <= a < size ==> !#[trigger] rec[a],
            forall|a: int| idx <= a < size ==> (#[trigger] succ[a]).len() == 0,
            forall|a: int| idx <= a < size ==> #[trigger] can_lose@[a],
            scans_ok(pieces@, store@, rec, succ, can_lose@, idx as int),
            forall|u: int| 0 <= u < idx && #[trigger] rec[u] ==> deg@[u] == succ[u].len(),
            lpos16_ok(deg@, rec, val@, can_lose@, idx as int),
            forall|a: int| 0 <= a < idx && #[trigger] pending(pieces@, val@, a) ==> rec[a],
            unscanned_decided(pieces@, val@, rec, idx as int),
            fr ==> all_base(pieces@, store@, val@, rank0, idx as int),
            forall|a: int| 0 <= a < idx && #[trigger] val@[a] != TB_DRAW ==> queue@.contains(a as usize),
            queue_ok(queue@, val@, size as int),
            forall|k: int| 0 <= k < queue@.len() ==> (#[trigger] queue@[k] as int) < idx && tablebase::tb_valid(
                pieces@,
                queue@[k] as int,
            ),
            queue@.no_duplicates(),
        decreases size - idx,
    {
        let ghost old_val = val@;
        let ghost old_queue = queue@;
        let ghost old_rec = rec;
        let ghost old_succ = succ;
        let ghost old_deg = deg@;
        match tb_pos(pieces, idx) {
            Some(p) => {
                proof {
                    lemma_tb_pos_board(pieces@, idx as int, p);
                    lemma_tb_position(pieces@, idx as int, p);
                    lemma_board_facts(pieces@, idx as int, p);
                }
                match status_of(&p) {
                    Status::Win(c) => {
                        let v = if c == p.turn {
                            TB_WIN
                        } else {
                            TB_LOSS
                        };
                        val.set(idx, v);
                        queue.push(idx);
                        proof {
                            assert(frame_ok(pieces@, val@, idx as int));
                            if fr {
                                assert(base_ok(pieces@, store@, val@, rank0, idx as int));
                                assert forall|a: int| 0 <= a < idx implies #[trigger] base_ok(pieces@, store@, val@, rank0, a) by {
                                    assert(base_ok(pieces@, store@, old_val, rank0, a));
                                    lemma_base_keep(pieces@, store@, old_val, rank0, a, idx as int, v, 0);
                                    assert(rank0.update(idx as int, 0) =~= rank0);
                                }
                            }
                        }
                    },
                    _ => {
                        let (winning, fixed_draw, nsucc, _, gs) = first_scan(pieces, store, &p, false, Ghost(idx as int));
                        if winning {
                            val.set(idx, TB_WIN);
                            queue.push(idx);
                            proof {
                                if fr {
                                    lemma_quick_win_entry(pieces@, store@, val@, rank0, idx as int, p);
                                    assert forall|a: int| 0 <= a < idx implies #[trigger] base_ok(pieces@, store@, val@, rank0, a) by {
                                        assert(base_ok(pieces@, store@, old_val, rank0, a));
                                        lemma_base_keep(pieces@, store@, old_val, rank0, a, idx as int, TB_WIN, 0);
                                        assert(rank0.update(idx as int, 0) =~= rank0);
                                    }
                                }
                            }
                        } else {
                            if fixed_draw {
                                can_lose.set(idx, false);
                            }
                            deg.set(idx, nsucc as u16);
                            proof {
                                rec = rec.update(idx as int, true);
                                succ = succ.update(idx as int, gs@);
                                assert(scanned(pieces@, store@, idx as int, gs@, can_lose@[idx as int]));
                            }
                            if nsucc == 0 && !fixed_draw {
                                val.set(idx, TB_LOSS);
                                queue.push(idx);
                                proof {
                                    if fr {
                                        lemma_loss_entry(pieces@, store@, val@, rank0, idx as int, gs@);
                                        assert forall|a: int| 0 <= a < idx implies #[trigger] base_ok(pieces@, store@, val@, rank0, a) by {
                                            assert(base_ok(pieces@, store@, old_val, rank0, a));
                                            lemma_base_keep(pieces@, store@, old_val, rank0, a, idx as int, TB_LOSS, 0);
                                            assert(rank0.update(idx as int, 0) =~= rank0);
                                        }
                                    }
                                }
                            }
                        }
                    },
                }
            },
            None => {},
        }
        proof {
            assert forall|a: int| 0 <= a < idx + 1 implies #[trigger] frame_ok(pieces@, val@, a) by {
                if a < idx {
                    assert(frame_ok(pieces@, old_val, a));
                }
            }
            assert forall|u: int| 0 <= u < idx + 1 && #[trigger] rec[u] implies scanned(pieces@, store@, u, succ[u], can_lose@[u]) by {
                if u < idx {
                    assert(old_rec[u]);
                    assert(scanned(pieces@, store@, u, old_succ[u], can_lose@[u]));
                }
            }
            assert forall|u: int| 0 <= u < idx + 1 && !#[trigger] rec[u] implies succ[u].len() == 0 by {
                if u < idx {
                    assert(!old_rec[u]);
                }
            }
            assert forall|u: int| 0 <= u < idx + 1 && #[trigger] rec[u] implies deg@[u] == succ[u].len() by {
                if u < idx {
                    assert(old_rec[u]);
                    assert(old_deg[u] == old_succ[u].len());
                }
            }
            assert forall|u: int| 0 <= u < idx + 1 && #[trigger] rec[u] && val@[u] == TB_DRAW && can_lose@[u] implies deg@[u] > 0 by {
                if u < idx {
                    assert(old_rec[u]);
                    assert(old_val[u] == TB_DRAW);
                }
            }
            assert forall|a: int| 0 <= a < idx + 1 && #[trigger] pending(pieces@, val@, a) implies rec[a] by {
                if a < idx {
                    assert(pending(pieces@, old_val, a));
                    assert(old_rec[a]);
                }
            }
            assert forall|u: int| 0 <= u < idx + 1 && tablebase::tb_valid(pieces@, u) && !#[trigger] rec[u] implies val@[u]
                != TB_DRAW by {
                if u < idx {
                    assert(!old_rec[u]);
                    assert(old_val[u] != TB_DRAW);
                }
            }
            assert forall|a: int| 0 <= a < idx + 1 && #[trigger] val@[a] != TB_DRAW implies queue@.contains(a as usize) by {
                if a < idx {
                    assert(old_val[a] != TB_DRAW);
                    let k = choose|k: int| 0 <= k < old_queue.len() && old_queue[k] == a as usize;
                    assert(queue@[k] == a as usize);
                } else {
                    assert(queue@[queue@.len() - 1] == idx);
                }
            }
            assert forall|k: int| 0 <= k < queue@.len() implies (#[trigger] queue@[k] as int) < size && val@[queue@[k] as int]
                != TB_DRAW by {
                if k < old_queue.len() {
                    assert(queue@[k] == old_queue[k]);
                    assert(old_val[old_queue[k] as int] != TB_DRAW);
                }
            }
            assert forall|k: int| 0 <= k < queue@.len() implies (#[trigger] queue@[k] as int) < idx + 1 && tablebase::tb_valid(
                pieces@,
                queue@[k] as int,
            ) by {
                if k < old_queue.len() {
                    assert(queue@[k] == old_queue[k]);
                }
            }
            assert forall|k1: int, k2: int| 0 <= k1 < queue@.len() && 0 <= k2 < queue@.len() && k1 != k2 implies queue@[k1]
                != queue@[k2] by {
                if k1 < old_queue.len() && k2 < old_queue.len() {
                    assert(queue@[k1] == old_queue[k1]);
                    assert(queue@[k2] == old_queue[k2]);
                } else if k1 < old_queue.len() {
                    assert(queue@[k1] == old_queue[k1]);
                } else if k2 < old_queue.len() {
                    assert(queue@[k2] == old_queue[k2]);
                }
            }
            if fr {
                assert forall|a: int| 0 <= a < idx + 1 implies #[trigger] base_ok(pieces@, store@, val@, rank0, a) by {
                    if a < idx && val@ == old_val {
                        assert(base_ok(pieces@, store@, old_val, rank0, a));
                    }
                }
            }
        }
        idx += 1;
    }
    let ghost mut done: Seq<bool> = done0;
    let ghost mut rank: Seq<nat> = rank0;
    let ghost mut step: nat = 1;
    proof {
        assert forall|u: int|
            0 <= u < size && #[trigger] rec[u] && val@[u] == TB_DRAW implies (deg@[u] + if false {
            count_of(Seq::<usize>::empty().take(0), u as usize)
        } else {
            0
        }) == undone(succ[u], done, val@) + (if false {
            count_of(Seq::<usize>::empty(), u as usize)
        } else {
            0
        }) by {
            assert(scanned(pieces@, store@, u, succ[u], can_lose@[u]));
            lemma_undone_fresh(succ[u], done, val@);
        }
        assert forall|c: int|
            0 <= c < size && #[trigger] val@[c] != TB_DRAW implies done[c] || queue@.subrange(0, queue@.len() as int).contains(
            c as usize,
        ) by {
            assert(queue@.subrange(0, queue@.len() as int) =~= queue@);
        }
        assert forall|a: int| 0 <= a < val@.len() && #[trigger] val@[a] != TB_DRAW implies rank[a] < step by {}
    }
    let mut preds: Vec<usize> = Vec::new();
    let mut cands: Vec<(u8, u8)> = Vec::new();
    let mut umoves: Vec<(u8, u8)> = Vec::new();
    let mut qi: usize = 0;
    while qi < queue.len()
        invariant
            0 <= qi <= queue@.len(),
            size == tablebase::table_size(pieces@.len()),
            solvable(pieces@),
            subtables_ready(pieces@, store@),
            fr == subtables_framed(pieces@, store@),
            val@.len() == size,
            deg@.len() == size,
            can_lose@.len() == size,
            rec.len() == size,
            succ.len() == size,
            done.len() == size,
            rank.len() == size,
            all_framed(pieces@, val@),
            scans_ok(pieces@, store@, rec, succ, can_lose@, size as int),
            deg16_ok(deg@, rec, succ, done, val@, size as int, Seq::empty(), 0, false),
            lpos16_ok(deg@, rec, val@, can_lose@, size as int),
            settled_known(done, val@, queue@, qi as int, size as int),
            losses_answered(done, val@, rec, succ, size as int),
            pending_scanned(pieces@, val@, rec, size as int),
            unscanned_decided(pieces@, val@, rec, size as int),
            fr ==> all_base(pieces@, store@, val@, rank, size as int),
            ranked_before(val@, rank, step),
            queue_ok(queue@, val@, size as int),
            forall|k: int| 0 <= k < queue@.len() ==> tablebase::tb_valid(pieces@, #[trigger] queue@[k] as int),
            queue@.no_duplicates(),
            forall|k: int| qi <= k < queue@.len() ==> !done[#[trigger] queue@[k] as int],
        decreases queue@.len() - qi + 2 * draw_count(val@, size as int),
    {
        let vi = queue[qi];
        let vv = val[vi];
        proof {
            assert(val@[queue@[qi as int] as int] != TB_DRAW);
            assert(frame_ok(pieces@, val@, vi as int));
            assert(tablebase::tb_valid(pieces@, queue@[qi as int] as int));
            assert(!done[queue@[qi as int] as int]);
        }
        let v = tb_pos(pieces, vi).unwrap();
        proof {
            lemma_tb_pos_board(pieces@, vi as int, v);
        }
        unmove_preds(pieces, &v, Ghost(vi as int), &mut preds, &mut cands, &mut umoves);
        let ghost dn2 = done.update(vi as int, true);
        proof {
            lemma_onfly_list(pieces@, store@, vi as int, v, preds@, rec, succ, can_lose@, size as int);
            assert forall|u: int|
                0 <= u < size && #[trigger] rec[u] && val@[u] == TB_DRAW implies (deg@[u] + if vv == TB_WIN {
                count_of(preds@.take(0), u as usize)
            } else {
                0
            }) == undone(succ[u], dn2, val@) + (if vv == TB_WIN {
                count_of(preds@, u as usize)
            } else {
                0
            }) by {
                assert(scanned(pieces@, store@, u, succ[u], can_lose@[u]));
                assert(preds@.take(0) =~= Seq::<usize>::empty());
                assert(deg@[u] == undone(succ[u], done, val@));
                if vv == TB_WIN {
                    lemma_undone_mark_win(succ[u], done, val@, vi as int);
                } else {
                    lemma_undone_mark(succ[u], done, val@, vi as int);
                }
            }
            assert forall|c: int| 0 <= c < size && #[trigger] dn2[c] implies val@[c] != TB_DRAW by {
                if c != vi as int {
                    assert(done[c]);
                }
            }
            assert forall|c: int|
                0 <= c < size && #[trigger] val@[c] != TB_DRAW implies dn2[c] || queue@.subrange(qi + 1, queue@.len() as int).contains(
                c as usize,
            ) by {
                if !done[c] && c != vi as int {
                    let k = choose|k: int|
                        0 <= k < queue@.subrange(qi as int, queue@.len() as int).len() && queue@.subrange(
                            qi as int,
                            queue@.len() as int,
                        )[k] == c as usize;
                    assert(k != 0);
                    assert(queue@.subrange(qi + 1, queue@.len() as int)[k - 1] == c as usize);
                }
            }
            assert forall|k: int| qi + 1 <= k < queue@.len() implies !dn2[#[trigger] queue@[k] as int] by {
                assert(queue@[k] != queue@[qi as int]);
            }
        }
        let ghost q0 = queue@.len();
        let ghost d0 = draw_count(val@, size as int);
        let mut a: usize = 0;
        while a < preds.len()
            invariant
                0 <= a <= preds@.len(),
                qi < q0 <= queue@.len(),
                size == tablebase::table_size(pieces@.len()),
                solvable(pieces@),
                subtables_ready(pieces@, store@),
                fr == subtables_framed(pieces@, store@),
                val@.len() == size,
                deg@.len() == size,
                can_lose@.len() == size,
                rec.len() == size,
                succ.len() == size,
                done.len() == size,
                rank.len() == size,
                vi < size,
                vv == val@[vi as int],
                vv == TB_WIN || vv == TB_LOSS,
                !done[vi as int],
                dn2 == done.update(vi as int, true),
                forall|b: int| 0 <= b < preds@.len() ==> #[trigger] pred_entry(pieces@, vi as int, preds@[b] as int),
                forall|u: int| 0 <= u < size && #[trigger] rec[u] ==> count_of(preds@, u as usize) == count_of(succ[u], vi as int),
                all_framed(pieces@, val@),
                scans_ok(pieces@, store@, rec, succ, can_lose@, size as int),
                deg16_ok(deg@, rec, succ, dn2, val@, size as int, preds@, a as int, vv == TB_WIN),
                lpos16_ok(deg@, rec, val@, can_lose@, size as int),
                settled_known(dn2, val@, queue@, qi + 1, size as int),
                losses_answered(done, val@, rec, succ, size as int),
                vv == TB_LOSS ==> forall|b: int| 0 <= b < a ==> val@[#[trigger] preds@[b] as int] != TB_DRAW,
                pending_scanned(pieces@, val@, rec, size as int),
                unscanned_decided(pieces@, val@, rec, size as int),
                fr ==> all_base(pieces@, store@, val@, rank, size as int),
                ranked_before(val@, rank, step),
                queue_ok(queue@, val@, size as int),
                forall|k: int| 0 <= k < queue@.len() ==> tablebase::tb_valid(pieces@, #[trigger] queue@[k] as int),
                queue@.no_duplicates(),
                forall|k: int| qi + 1 <= k < queue@.len() ==> !dn2[#[trigger] queue@[k] as int],
                queue@[qi as int] == vi,
                queue@.len() + 2 * draw_count(val@, size as int) <= q0 + 2 * d0,
            decreases preds@.len() - a,
        {
            let u = preds[a];
            let ghost uu = u as int;
            proof {
                assert(pred_entry(pieces@, vi as int, preds@[a as int] as int));
                assert(preds@[a as int] == u);
                lemma_count_take(preds@, a as int, u);
                lemma_count_take_le(preds@, a + 1, u);
            }
            let ghost old_deg = deg@;
            let ghost old_val = val@;
            if val[u] == TB_DRAW {
                proof {
                    assert(rec[uu]);
                    assert(count_of(preds@, u) >= 1);
                    assert(scanned(pieces@, store@, uu, succ[uu], can_lose@[uu]));
                }
                let mut settle: u8 = TB_DRAW;
                if vv == TB_LOSS {
                    settle = TB_WIN;
                } else {
                    proof {
                        assert(deg@[uu] + count_of(preds@.take(a as int), u) == undone(succ[uu], dn2, val@) + count_of(
                            preds@,
                            u,
                        ));
                    }
                    deg.set(u, deg[u] - 1);
                    if deg[u] == 0 && can_lose[u] {
                        settle = TB_LOSS;
                    }
                }
                if settle != TB_DRAW {
                    let ghost old_rank = rank;
                    let ghost old_queue = queue@;
                    proof {
                        lemma_retro_settle(
                            pieces@,
                            store@,
                            old_val,
                            old_rank,
                            step,
                            can_lose@,
                            rec,
                            succ,
                            done,
                            dn2,
                            old_queue,
                            qi + 1,
                            size as int,
                            uu,
                            settle,
                        );
                    }
                    val.set(u, settle);
                    queue.push(u);
                    proof {
                        rank = rank.update(uu, step);
                        lemma_draw_count_settle(old_val, uu, settle, size as int);
                        if fr {
                            if settle == TB_WIN {
                                lemma_count_pos(succ[uu], vi as int);
                                lemma_win_entry(pieces@, store@, val@, rank, uu, succ[uu], can_lose@[uu], vi as int);
                            } else {
                                assert(undone(succ[uu], dn2, old_val) == 0);
                                lemma_undone_zero(succ[uu], dn2, old_val);
                                assert forall|b: int| 0 <= b < succ[uu].len() implies val@[#[trigger] succ[uu][b]] == TB_WIN
                                    && rank[succ[uu][b]] < rank[uu] && frame_ok(pieces@, val@, succ[uu][b]) by {
                                    let w = succ[uu][b];
                                    assert(dn2[w] && old_val[w] == TB_WIN);
                                    assert(w != uu);
                                    assert(old_rank[w] < step);
                                }
                                lemma_loss_entry(pieces@, store@, val@, rank, uu, succ[uu]);
                            }
                            assert forall|x: int| 0 <= x < size implies #[trigger] base_ok(pieces@, store@, val@, rank, x) by {
                                if x != uu {
                                    assert(base_ok(pieces@, store@, old_val.update(uu, settle), old_rank.update(uu, step), x));
                                }
                            }
                        }
                        assert forall|w: int|
                            0 <= w < size && #[trigger] rec[w] && val@[w] == TB_DRAW implies (deg@[w] + if vv == TB_WIN {
                            count_of(preds@.take(a + 1), w as usize)
                        } else {
                            0
                        }) == undone(succ[w], dn2, val@) + (if vv == TB_WIN {
                            count_of(preds@, w as usize)
                        } else {
                            0
                        }) by {
                            assert(w != uu);
                            assert(old_val[w] == TB_DRAW);
                            assert(scanned(pieces@, store@, w, succ[w], can_lose@[w]));
                            lemma_undone_settle(succ[w], dn2, old_val, uu, settle);
                            lemma_count_take(preds@, a as int, w as usize);
                        }
                        assert forall|w: int| 0 <= w < size && #[trigger] rec[w] && val@[w] == TB_DRAW && can_lose@[w] implies deg@[w]
                            > 0 by {
                            assert(w != uu);
                            assert(old_val[w] == TB_DRAW);
                        }
                        assert forall|w: int| 0 <= w < size && tablebase::tb_valid(pieces@, w) && !#[trigger] rec[w] implies val@[w]
                            != TB_DRAW by {
                            assert(old_val[w] != TB_DRAW);
                        }
                        assert forall|k: int| 0 <= k < queue@.len() implies tablebase::tb_valid(pieces@, #[trigger] queue@[k] as int) by {
                            if k < old_queue.len() {
                                assert(queue@[k] == old_queue[k]);
                            }
                        }
                        assert forall|k1: int, k2: int| 0 <= k1 < queue@.len() && 0 <= k2 < queue@.len() && k1 != k2 implies queue@[k1]
                            != queue@[k2] by {
                            if k1 < old_queue.len() && k2 < old_queue.len() {
                                assert(queue@[k1] == old_queue[k1]);
                                assert(queue@[k2] == old_queue[k2]);
                            } else if k1 < old_queue.len() {
                                assert(queue@[k1] == old_queue[k1]);
                                assert(old_val[old_queue[k1] as int] != TB_DRAW);
                            } else if k2 < old_queue.len() {
                                assert(queue@[k2] == old_queue[k2]);
                                assert(old_val[old_queue[k2] as int] != TB_DRAW);
                            }
                        }
                        assert forall|k: int| qi + 1 <= k < queue@.len() implies !dn2[#[trigger] queue@[k] as int] by {
                            if k < old_queue.len() {
                                assert(queue@[k] == old_queue[k]);
                            }
                        }
                        assert(queue@[qi as int] == old_queue[qi as int]);
                        step = step + 1;
                    }
                } else {
                    proof {
                        assert forall|w: int|
                            0 <= w < size && #[trigger] rec[w] && val@[w] == TB_DRAW implies (deg@[w] + if vv == TB_WIN {
                            count_of(preds@.take(a + 1), w as usize)
                        } else {
                            0
                        }) == undone(succ[w], dn2, val@) + (if vv == TB_WIN {
                            count_of(preds@, w as usize)
                        } else {
                            0
                        }) by {
                            lemma_count_take(preds@, a as int, w as usize);
                        }
                    }
                }
            } else {
                proof {
                    assert forall|w: int|
                        0 <= w < size && #[trigger] rec[w] && val@[w] == TB_DRAW implies (deg@[w] + if vv == TB_WIN {
                        count_of(preds@.take(a + 1), w as usize)
                    } else {
                        0
                    }) == undone(succ[w], dn2, val@) + (if vv == TB_WIN {
                        count_of(preds@, w as usize)
                    } else {
                        0
                    }) by {
                        lemma_count_take(preds@, a as int, w as usize);
                    }
                }
            }
            proof {
                if vv == TB_LOSS {
                    assert(val@[uu] != TB_DRAW);
                    assert forall|b: int| 0 <= b < a + 1 implies val@[#[trigger] preds@[b] as int] != TB_DRAW by {
                        if b < a {
                            assert(old_val[preds@[b] as int] != TB_DRAW);
                            assert(pred_entry(pieces@, vi as int, preds@[b] as int));
                            if preds@[b] as int != uu {
                                assert(val@[preds@[b] as int] == old_val[preds@[b] as int]);
                            }
                        } else {
                            assert(preds@[b] == u);
                        }
                    }
                }
            }
            a += 1;
        }
        proof {
            assert(preds@.take(preds@.len() as int) =~= preds@);
            assert forall|v2: int, u2: int|
                0 <= v2 < size && 0 <= u2 < size && #[trigger] dn2[v2] && val@[v2] == TB_LOSS && #[trigger] rec[u2] && count_of(
                    succ[u2],
                    v2,
                ) > 0 implies val@[u2] != TB_DRAW by {
                if v2 == vi as int {
                    assert(count_of(preds@, u2 as usize) > 0);
                    lemma_count_pos(preds@, u2 as usize);
                    let b = choose|b: int| 0 <= b < preds@.len() && preds@[b] == u2 as usize;
                    assert(val@[preds@[b] as int] != TB_DRAW);
                } else {
                    assert(done[v2]);
                }
            }
            assert forall|w: int|
                0 <= w < size && #[trigger] rec[w] && val@[w] == TB_DRAW implies (deg@[w] + if false {
                count_of(Seq::<usize>::empty().take(0), w as usize)
            } else {
                0
            }) == undone(succ[w], dn2, val@) + (if false {
                count_of(Seq::<usize>::empty(), w as usize)
            } else {
                0
            }) by {
                assert(deg16_ok(deg@, rec, succ, dn2, val@, size as int, preds@, preds@.len() as int, vv == TB_WIN));
            }
            done = dn2;
        }
        qi += 1;
    }
    proof {
        if fr {
            assert forall|u: int| 0 <= u < size && #[trigger] rec[u] && val@[u] == TB_DRAW && can_lose@[u] implies undone(
                succ[u],
                done,
                val@,
            ) > 0 by {
                assert(deg@[u] > 0);
            }
            lemma_retro_final(pieces@, store@, val@, rank, can_lose@, rec, succ, done, queue@, size as int);
            lemma_is_the_solution(pieces@, store@, val@);
        }
    }
    val
}

// ── Building and using tables ───────────────────────────────────────────────

proof fn lemma_table_size_small(n: nat)
    requires
        tablebase::table_size(n) <= usize::MAX,
    ensures
        n <= 10,
{
    if n > 10 {
        assert(tablebase::pow63(11) == 63 * 63 * 63 * 63 * 63 * 63 * 63 * 63 * 63 * 63 * 63) by {
            reveal_with_fuel(tablebase::pow63, 12);
        }
        tablebase::lemma_pow63_mono(11, n);
    }
}

proof fn lemma_table_size_mono(a: nat, b: nat)
    requires
        a <= b,
    ensures
        tablebase::table_size(a) <= tablebase::table_size(b),
{
    tablebase::lemma_pow63_mono(a, b);
}

/// A material set of sizes 2..=k can be solved and stored.
proof fn lemma_set_facts(s: Seq<u8>)
    requires
        tablebase::is_material_set(s),
    ensures
        tablebase::distinct_codes(s),
        tablebase::valid_key(s) || s.len() > 15,
{
    assert forall|i: int, j: int| 0 <= i < s.len() && 0 <= j < s.len() && i != j implies #[trigger] s[i] != #[trigger] s[j] by {
        if i < j {
            assert(s[i] < s[j]);
        } else {
            assert(s[j] < s[i]);
        }
    }
}

/// The capture sub-sets of a material set that keep both colours are material sets one smaller.
proof fn lemma_sub_key_set(s: Seq<u8>, j: int)
    requires
        tablebase::is_material_set(s),
        0 <= j < s.len(),
        tablebase::both_colors(tablebase::sub_key(s, j)),
    ensures
        tablebase::is_material_set(tablebase::sub_key(s, j)),
        tablebase::sub_key(s, j).len() + 1 == s.len(),
{
    lemma_set_facts(s);
    tablebase::lemma_sub_key(s, j);
    let h = |x: int| s.contains(x as u8) && x != s[j];
    tablebase::lemma_codes_where(h, 16);
}

/// A solved table is framed.
proof fn lemma_solution_framed(pieces: Seq<u8>, st: Map<Seq<u8>, Seq<u8>>, t: Seq<u8>)
    requires
        is_solution(pieces, st, t),
    ensures
        forall|i: int| 0 <= i < t.len() ==> #[trigger] frame_ok(pieces, t, i),
{
    let rank = choose|rank: Seq<nat>| #[trigger] solved_with(pieces, st, t, rank);
    assert forall|i: int| 0 <= i < t.len() implies #[trigger] frame_ok(pieces, t, i) by {
        assert(entry_ok(pieces, st, t, rank, i));
    }
}

/// A child of a valid table board is valued alike against two stores that agree on the tables one
/// piece smaller.
proof fn lemma_child_value_same(
    pieces: Seq<u8>,
    st1: Map<Seq<u8>, Seq<u8>>,
    st2: Map<Seq<u8>, Seq<u8>>,
    t: Seq<u8>,
    i: int,
    p: Parsed,
    m: (u8, u8),
    c: Parsed,
)
    requires
        tablebase::distinct_codes(pieces),
        subtables_ready(pieces, st1),
        forall|k: Seq<u8>| #[trigger] st1.contains_key(k) && k.len() + 1 == pieces.len() ==> st2.contains_key(k) && st2[k] == st1[k],
        0 <= i,
        tablebase::tb_valid(pieces, i),
        tb_board(pieces, i, p),
        is_child(p, m, c),
    ensures
        child_value(pieces, st1, t, c) == child_value(pieces, st2, t, c),
{
    lemma_board_facts(pieces, i, p);
    let j = lemma_child_facts(pieces, p, m, c);
    if status::status_spec(c) is Playing && tablebase::material_spec(c.squares@).len() != pieces.len() {
        assert(status::has_pieces(c, 0) && status::has_pieces(c, 1));
        let key = tablebase::sub_key(pieces, j);
        assert(st1.contains_key(key));
    }
}

/// A solved table stays solved against a store that agrees on the tables one piece smaller.
proof fn lemma_solution_extend(pieces: Seq<u8>, st1: Map<Seq<u8>, Seq<u8>>, st2: Map<Seq<u8>, Seq<u8>>, t: Seq<u8>)
    requires
        tablebase::distinct_codes(pieces),
        is_solution(pieces, st1, t),
        subtables_ready(pieces, st1),
        forall|k: Seq<u8>| #[trigger] st1.contains_key(k) && k.len() + 1 == pieces.len() ==> st2.contains_key(k) && st2[k] == st1[k],
    ensures
        is_solution(pieces, st2, t),
{
    let rank = choose|rank: Seq<nat>| #[trigger] solved_with(pieces, st1, t, rank);
    assert forall|i: int| 0 <= i < t.len() implies #[trigger] entry_ok(pieces, st2, t, rank, i) by {
        assert(entry_ok(pieces, st1, t, rank, i));
        let p = tb_position(pieces, i);
        if tablebase::tb_valid(pieces, i) && !(status::status_spec(p) is Win) {
            lemma_board_exists(pieces, i);
            assert(tb_board(pieces, i, p));
            if t[i] == TB_WIN {
                let (m, c) = choose|m: (u8, u8), c: Parsed|
                    #[trigger] is_child(p, m, c) && child_value(pieces, st1, t, c) == TB_LOSS && below(pieces, rank, i, c);
                lemma_child_value_same(pieces, st1, st2, t, i, p, m, c);
                assert(is_child(p, m, c));
            }
            if t[i] == TB_LOSS {
                assert forall|m: (u8, u8), c: Parsed| #[trigger] is_child(p, m, c) implies child_value(pieces, st2, t, c)
                    == TB_WIN && below(pieces, rank, i, c) by {
                    lemma_child_value_same(pieces, st1, st2, t, i, p, m, c);
                }
            }
            if t[i] == TB_DRAW {
                assert(draw_ok(pieces, st1, t, p));
                assert forall|m: (u8, u8), c: Parsed| #[trigger] is_child(p, m, c) implies child_value(pieces, st2, t, c)
                    != TB_LOSS by {
                    lemma_child_value_same(pieces, st1, st2, t, i, p, m, c);
                }
                let (m, c) = choose|m: (u8, u8), c: Parsed|
                    #[trigger] is_child(p, m, c) && child_value(pieces, st1, t, c) != TB_WIN;
                lemma_child_value_same(pieces, st1, st2, t, i, p, m, c);
                assert(is_child(p, m, c));
            }
        }
    }
    assert(solved_with(pieces, st2, t, rank));
}

/// Tables for every material set of 2 up to `max_pieces` pieces, smallest sets first, each
/// solved by the on-the-fly retrograde solver once all its capture sub-tables are stored.
pub fn build_tables(max_pieces: usize) -> (store: Store)
    requires
        tablebase::table_size(max_pieces as nat) <= usize::MAX,
    ensures
        tablebase::store_sized(store@),
        forall|s: Seq<u8>| #[trigger] store@.contains_key(s) <==> (tablebase::is_material_set(s) && 2 <= s.len() <= max_pieces),
        forall|s: Seq<u8>, i: int| store@.contains_key(s) && 0 <= i < store@[s].len() ==> #[trigger] frame_ok(s, store@[s], i),
        forall|s: Seq<u8>| #[trigger] store@.contains_key(s) ==> is_solution(s, store@, store@[s]),
        forall|s: Seq<u8>| #[trigger] store@.contains_key(s) ==> store@[s] == solution(s, store@),
{
    proof {
        lemma_table_size_small(max_pieces as nat);
    }
    let mut store = Store::new();
    let mut k: usize = 2;
    while k <= max_pieces
        invariant
            2 <= k,
            k <= max_pieces + 1 || max_pieces < 2,
            max_pieces < 2 ==> k == 2,
            max_pieces <= 10,
            tablebase::table_size(max_pieces as nat) <= usize::MAX,
            tablebase::store_sized(store@),
            forall|s: Seq<u8>| #[trigger] store@.contains_key(s) <==> (tablebase::is_material_set(s) && 2 <= s.len() < k),
            forall|s: Seq<u8>, i: int| store@.contains_key(s) && 0 <= i < store@[s].len() ==> #[trigger] frame_ok(s, store@[s], i),
            forall|s: Seq<u8>| #[trigger] store@.contains_key(s) ==> is_solution(s, store@, store@[s]),
        decreases max_pieces + 1 - k,
    {
        let sets = material_sets(k);
        let mut i: usize = 0;
        while i < sets.len()
            invariant
                0 <= i <= sets@.len(),
                2 <= k <= max_pieces,
                max_pieces <= 10,
                tablebase::table_size(max_pieces as nat) <= usize::MAX,
                forall|a: int| 0 <= a < sets@.len() ==> tablebase::is_material_set(#[trigger] sets@[a]@) && sets@[a]@.len() == k,
                tablebase::store_sized(store@),
                forall|s: Seq<u8>| #[trigger] store@.contains_key(s) <==> ((tablebase::is_material_set(s) && 2 <= s.len() < k)
                    || exists|a: int| 0 <= a < i && #[trigger] sets@[a]@ == s),
                forall|s: Seq<u8>, b: int| store@.contains_key(s) && 0 <= b < store@[s].len() ==> #[trigger] frame_ok(s, store@[s], b),
                forall|s: Seq<u8>| #[trigger] store@.contains_key(s) ==> is_solution(s, store@, store@[s]),
            decreases sets@.len() - i,
        {
            let set = sets[i].clone();
            proof {
                assert(tablebase::is_material_set(sets@[i as int]@));
                lemma_set_facts(set@);
                lemma_table_size_mono(set@.len() as nat, max_pieces as nat);
                assert forall|j: int|
                    0 <= j < set@.len() && tablebase::both_colors(#[trigger] tablebase::sub_key(set@, j)) implies store@.contains_key(
                        tablebase::sub_key(set@, j),
                    ) by {
                    lemma_sub_key_set(set@, j);
                }
                assert forall|key: Seq<u8>, b: int| store@.contains_key(key) && 0 <= b < store@[key].len() implies #[trigger] frame_ok(
                    key,
                    store@[key],
                    b,
                ) by {
                    assert(is_solution(key, store@, store@[key]));
                    lemma_solution_framed(key, store@, store@[key]);
                }
            }
            let v = solve_set_onfly(set.as_slice(), &store);
            let ghost old_store = store@;
            let ghost sv = v@;
            let ghost sk = set@;
            proof {
                assert(subtables_framed(set@, store@));
            }
            store.insert(set, v);
            proof {
                assert forall|s: Seq<u8>| #[trigger] store@.contains_key(s) implies is_solution(s, store@, store@[s]) by {
                    if s == sk {
                        assert(is_solution(sk, old_store, sv));
                        lemma_set_facts(sk);
                        lemma_solution_extend(sk, old_store, store@, sv);
                    } else {
                        assert(old_store.contains_key(s));
                        assert(is_solution(s, old_store, old_store[s]));
                        assert(tablebase::is_material_set(s) && 2 <= s.len() <= k) by {
                            if !(tablebase::is_material_set(s) && 2 <= s.len() < k) {
                                let a = choose|a: int| 0 <= a < i && #[trigger] sets@[a]@ == s;
                            }
                        }
                        lemma_set_facts(s);
                        assert forall|j: int|
                            0 <= j < s.len() && tablebase::both_colors(#[trigger] tablebase::sub_key(s, j)) implies old_store.contains_key(
                            tablebase::sub_key(s, j),
                        ) by {
                            lemma_sub_key_set(s, j);
                        }
                        assert(subtables_ready(s, old_store));
                        lemma_solution_extend(s, old_store, store@, old_store[s]);
                    }
                }
                assert forall|s: Seq<u8>| #[trigger] store@.contains_key(s) <==> ((tablebase::is_material_set(s) && 2 <= s.len() < k)
                    || exists|a: int| 0 <= a < i + 1 && #[trigger] sets@[a]@ == s) by {
                    if exists|a: int| 0 <= a < i + 1 && #[trigger] sets@[a]@ == s {
                        let a = choose|a: int| 0 <= a < i + 1 && #[trigger] sets@[a]@ == s;
                        if a < i {
                            assert(old_store.contains_key(s));
                        }
                    }
                    if old_store.contains_key(s) && !(tablebase::is_material_set(s) && 2 <= s.len() < k) {
                        let a = choose|a: int| 0 <= a < i && #[trigger] sets@[a]@ == s;
                        assert(0 <= a < i + 1 && sets@[a]@ == s);
                    }
                }
            }
            i += 1;
        }
        proof {
            assert forall|s: Seq<u8>| #[trigger] store@.contains_key(s) <==> (tablebase::is_material_set(s) && 2 <= s.len() < k + 1) by {
                if tablebase::is_material_set(s) && s.len() == k {
                    let a = choose|a: int| 0 <= a < sets@.len() && #[trigger] sets@[a]@ == s;
                }
                if store@.contains_key(s) && !(tablebase::is_material_set(s) && 2 <= s.len() < k) {
                    let a = choose|a: int| 0 <= a < sets@.len() && #[trigger] sets@[a]@ == s;
                    assert(tablebase::is_material_set(sets@[a]@));
                }
            }
        }
        k += 1;
    }
    proof {
        assert forall|s: Seq<u8>| #[trigger] store@.contains_key(s) <==> (tablebase::is_material_set(s) && 2 <= s.len()
            <= max_pieces) by {
            if max_pieces >= 2 {
                assert(k == max_pieces + 1);
            }
        }
        assert forall|s: Seq<u8>| #[trigger] store@.contains_key(s) implies store@[s] == solution(s, store@) by {
            lemma_is_the_solution(s, store@, store@[s]);
        }
    }
    store
}

/// The solved table of `pieces` against `st` (there is at most one).
pub open spec fn solution(pieces: Seq<u8>, st: Map<Seq<u8>, Seq<u8>>) -> Seq<u8> {
    choose|t: Seq<u8>| is_solution(pieces, st, t)
}

proof fn lemma_is_the_solution(pieces: Seq<u8>, st: Map<Seq<u8>, Seq<u8>>, t: Seq<u8>)
    requires
        is_solution(pieces, st, t),
    ensures
        t == solution(pieces, st),
{
    lemma_solution_unique(pieces, st, t, solution(pieces, st));
}

/// A set whose every capture ends the game (no capture leaves both colours on the board), so it
/// needs no sub-table.
pub open spec fn self_contained(pieces: Seq<u8>) -> bool {
    forall|j: int| 0 <= j < pieces.len() ==> !tablebase::both_colors(#[trigger] tablebase::sub_key(pieces, j))
}

/// Solves a set that needs no sub-table (such as any two-piece set).
pub fn solve_endgame(pieces: &[u8]) -> (val: Vec<u8>)
    requires
        solvable(pieces@),
        self_contained(pieces@),
    ensures
        is_solution(pieces@, Map::empty(), val@),
        val@ == solution(pieces@, Map::empty()),
{
    let empty = Store::new();
    let val = solve_set(pieces, &empty);
    proof {
        lemma_is_the_solution(pieces@, empty@, val@);
    }
    val
}

/// Number of valid indices among the first `n`.
pub open spec fn valid_count(pieces: Seq<u8>, n: int) -> nat
    decreases n,
{
    if n <= 0 {
        0
    } else {
        valid_count(pieces, n - 1) + if tablebase::tb_valid(pieces, n - 1) {
            1nat
        } else {
            0nat
        }
    }
}

/// Number of valid indices among the first `n` whose entry is `v`.
pub open spec fn outcome_count(pieces: Seq<u8>, t: Seq<u8>, v: u8, n: int) -> nat
    decreases n,
{
    if n <= 0 {
        0
    } else {
        outcome_count(pieces, t, v, n - 1) + if tablebase::tb_valid(pieces, n - 1) && t[n - 1] == v {
            1nat
        } else {
            0nat
        }
    }
}

/// Number of valid indices among the first `n` whose entry is neither a win nor a loss.
pub open spec fn other_count(pieces: Seq<u8>, t: Seq<u8>, n: int) -> nat
    decreases n,
{
    if n <= 0 {
        0
    } else {
        other_count(pieces, t, n - 1) + if tablebase::tb_valid(pieces, n - 1) && t[n - 1] != TB_WIN && t[n - 1] != TB_LOSS {
            1nat
        } else {
            0nat
        }
    }
}

/// Counts over a table: (valid indices, wins, losses, others).
fn count_table(pieces: &[u8], val: &Vec<u8>) -> (r: (usize, usize, usize, usize))
    requires
        forall|j: int| 0 <= j < pieces@.len() ==> #[trigger] pieces@[j] != 0,
    ensures
        r.0 == valid_count(pieces@, val@.len() as int),
        r.1 == outcome_count(pieces@, val@, TB_WIN, val@.len() as int),
        r.2 == outcome_count(pieces@, val@, TB_LOSS, val@.len() as int),
        r.3 == other_count(pieces@, val@, val@.len() as int),
{
    let (mut valid, mut w, mut l, mut d) = (0usize, 0usize, 0usize, 0usize);
    let mut idx: usize = 0;
    while idx < val.len()
        invariant
            0 <= idx <= val@.len(),
            forall|j: int| 0 <= j < pieces@.len() ==> #[trigger] pieces@[j] != 0,
            valid == valid_count(pieces@, idx as int),
            w == outcome_count(pieces@, val@, TB_WIN, idx as int),
            l == outcome_count(pieces@, val@, TB_LOSS, idx as int),
            d == other_count(pieces@, val@, idx as int),
            valid <= idx,
            w + l + d == valid,
        decreases val@.len() - idx,
    {
        if tb_pos(pieces, idx).is_some() {
            valid += 1;
            let v = val[idx];
            if v == TB_WIN {
                w += 1;
            } else if v == TB_LOSS {
                l += 1;
            } else {
                d += 1;
            }
        }
        idx += 1;
    }
    (valid, w, l, d)
}

/// Solves a self-contained set and counts (valid positions, wins, losses, draws) over it.
pub fn solve_endgame_stats(pieces: &[u8]) -> (r: (usize, usize, usize, usize))
    requires
        solvable(pieces@),
        self_contained(pieces@),
    ensures
        ({
            let t = solution(pieces@, Map::empty());
            let n = tablebase::table_size(pieces@.len()) as int;
            r == (valid_count(pieces@, n) as usize, outcome_count(pieces@, t, TB_WIN, n) as usize, outcome_count(
                pieces@,
                t,
                TB_LOSS,
                n,
            ) as usize, other_count(pieces@, t, n) as usize)
        }),
{
    let val = solve_endgame(pieces);
    count_table(pieces, &val)
}

/// Solves a self-contained set and reads the entry of one position of it.
pub fn solve_and_probe(pieces: &[u8], p: &Parsed) -> (r: u8)
    requires
        solvable(pieces@),
        self_contained(pieces@),
        tablebase::all_present(pieces@, *p),
        p.turn <= 1,
    ensures
        r == solution(pieces@, Map::empty())[tablebase::tb_index_spec(pieces@, *p)],
{
    let val = solve_endgame(pieces);
    let i = tb_index(pieces, p);
    val[i]
}

/// Per-size totals over the tables of the first `m` of `keys` that have `k` pieces:
/// (sets, valid positions, wins, losses, draws).
pub open spec fn size_totals(keys: Seq<Seq<u8>>, st: Map<Seq<u8>, Seq<u8>>, k: nat, m: int) -> (nat, nat, nat, nat, nat)
    decreases m,
{
    if m <= 0 {
        (0, 0, 0, 0, 0)
    } else {
        let prev = size_totals(keys, st, k, m - 1);
        let key = keys[m - 1];
        if key.len() == k {
            let t = st[key];
            let n = t.len() as int;
            (
                prev.0 + 1,
                prev.1 + valid_count(key, n),
                prev.2 + outcome_count(key, t, TB_WIN, n),
                prev.3 + outcome_count(key, t, TB_LOSS, n),
                prev.4 + other_count(key, t, n),
            )
        } else {
            prev
        }
    }
}

/// Entries over the tables of the first `m` of `keys`.
pub open spec fn total_len(keys: Seq<Seq<u8>>, st: Map<Seq<u8>, Seq<u8>>, m: int) -> nat
    decreases m,
{
    if m <= 0 {
        0
    } else {
        total_len(keys, st, m - 1) + st[keys[m - 1]].len()
    }
}

/// One row per piece count below `k` that has a set: (pieces, sets, valid, wins, losses,
/// draws), by increasing piece count.
pub open spec fn stats_rows(keys: Seq<Seq<u8>>, st: Map<Seq<u8>, Seq<u8>>, k: nat) -> Seq<(usize, usize, usize, usize, usize, usize)>
    decreases k,
{
    if k == 0 {
        Seq::empty()
    } else {
        let prev = stats_rows(keys, st, (k - 1) as nat);
        let g = size_totals(keys, st, (k - 1) as nat, keys.len() as int);
        if g.0 > 0 {
            prev.push(((k - 1) as usize, g.0 as usize, g.1 as usize, g.2 as usize, g.3 as usize, g.4 as usize))
        } else {
            prev
        }
    }
}

proof fn lemma_counts_bound(pieces: Seq<u8>, t: Seq<u8>, n: int)
    requires
        0 <= n,
    ensures
        valid_count(pieces, n) <= n,
        outcome_count(pieces, t, TB_WIN, n) + outcome_count(pieces, t, TB_LOSS, n) + other_count(pieces, t, n)
            == valid_count(pieces, n),
    decreases n,
{
    if n > 0 {
        lemma_counts_bound(pieces, t, n - 1);
    }
}

proof fn lemma_totals_bound(keys: Seq<Seq<u8>>, st: Map<Seq<u8>, Seq<u8>>, k: nat, m: int)
    requires
        0 <= m <= keys.len(),
    ensures
        size_totals(keys, st, k, m).0 <= m,
        size_totals(keys, st, k, m).1 <= total_len(keys, st, m),
        size_totals(keys, st, k, m).2 + size_totals(keys, st, k, m).3 + size_totals(keys, st, k, m).4
            == size_totals(keys, st, k, m).1,
    decreases m,
{
    if m > 0 {
        lemma_totals_bound(keys, st, k, m - 1);
        let key = keys[m - 1];
        lemma_counts_bound(key, st[key], st[key].len() as int);
    }
}

proof fn lemma_total_len_mono(keys: Seq<Seq<u8>>, st: Map<Seq<u8>, Seq<u8>>, a: int, b: int)
    requires
        0 <= a <= b,
    ensures
        total_len(keys, st, a) <= total_len(keys, st, b),
    decreases b,
{
    if b > a {
        lemma_total_len_mono(keys, st, a, b - 1);
    }
}

/// Per-piece-count totals over a store: one row (pieces, sets, valid positions, wins, losses,
/// draws) per piece count that has a set, by increasing piece count.
pub fn store_stats(store: &Store) -> (r: Vec<(usize, usize, usize, usize, usize, usize)>)
    requires
        total_len(store.keys(), store@, store.keys().len() as int) <= usize::MAX,
    ensures
        r@ == stats_rows(store.keys(), store@, 16),
{
    let keys = store.sets();
    let ghost ks = store.keys();
    let ghost st = store@;
    let mut sets = [0usize; 16];
    let mut valid = [0usize; 16];
    let mut wins = [0usize; 16];
    let mut losses = [0usize; 16];
    let mut draws = [0usize; 16];
    let mut a: usize = 0;
    while a < keys.len()
        invariant
            0 <= a <= keys@.len(),
            keys@.len() == ks.len(),
            ks == store.keys(),
            st == store@,
            forall|i: int| 0 <= i < keys@.len() ==> #[trigger] keys@[i]@ == ks[i],
            forall|i: int| 0 <= i < keys@.len() ==> tablebase::valid_key(#[trigger] keys@[i]@),
            forall|i: int| 0 <= i < keys@.len() ==> st.contains_key(#[trigger] keys@[i]@),
            total_len(ks, st, ks.len() as int) <= usize::MAX,
            forall|kk: int|
                0 <= kk < 16 ==> (#[trigger] sets[kk], valid[kk], wins[kk], losses[kk], draws[kk]) == (
                    size_totals(ks, st, kk as nat, a as int).0 as usize,
                    size_totals(ks, st, kk as nat, a as int).1 as usize,
                    size_totals(ks, st, kk as nat, a as int).2 as usize,
                    size_totals(ks, st, kk as nat, a as int).3 as usize,
                    size_totals(ks, st, kk as nat, a as int).4 as usize,
                ),
            forall|kk: int| 0 <= kk < 16 ==> #[trigger] size_totals(ks, st, kk as nat, a as int).1 <= total_len(ks, st, a as int),
            forall|kk: int| 0 <= kk < 16 ==> #[trigger] size_totals(ks, st, kk as nat, a as int).0 <= a,
        decreases keys@.len() - a,
    {
        let key = &keys[a];
        let k = key.len();
        assert(tablebase::valid_key(keys@[a as int]@));
        let t = store.get(key.as_slice()).unwrap();
        assert(t@ == st[ks[a as int]]);
        let (v, w, l, d) = count_table(key.as_slice(), t);
        proof {
            assert forall|kk: int| 0 <= kk < 16 implies #[trigger] size_totals(ks, st, kk as nat, a + 1).1 <= total_len(ks, st, a + 1) by {
                lemma_totals_bound(ks, st, kk as nat, a + 1);
            }
            assert forall|kk: int| 0 <= kk < 16 implies #[trigger] size_totals(ks, st, kk as nat, a + 1).0 <= a + 1 by {
                lemma_totals_bound(ks, st, kk as nat, a + 1);
            }
            lemma_totals_bound(ks, st, k as nat, a + 1);
            lemma_total_len_mono(ks, st, a + 1, ks.len() as int);
            lemma_counts_bound(ks[a as int], t@, t@.len() as int);
        }
        sets[k] = sets[k] + 1;
        valid[k] = valid[k] + v;
        wins[k] = wins[k] + w;
        losses[k] = losses[k] + l;
        draws[k] = draws[k] + d;
        a += 1;
    }
    let mut rows: Vec<(usize, usize, usize, usize, usize, usize)> = Vec::new();
    let mut kk: usize = 0;
    while kk < 16
        invariant
            0 <= kk <= 16,
            a == keys@.len(),
            a == ks.len(),
            forall|j: int|
                0 <= j < 16 ==> (#[trigger] sets[j], valid[j], wins[j], losses[j], draws[j]) == (
                    size_totals(ks, st, j as nat, a as int).0 as usize,
                    size_totals(ks, st, j as nat, a as int).1 as usize,
                    size_totals(ks, st, j as nat, a as int).2 as usize,
                    size_totals(ks, st, j as nat, a as int).3 as usize,
                    size_totals(ks, st, j as nat, a as int).4 as usize,
                ),
            forall|j: int| 0 <= j < 16 ==> #[trigger] size_totals(ks, st, j as nat, a as int).0 <= a,
            rows@ == stats_rows(ks, st, kk as nat),
        decreases 16 - kk,
    {
        if sets[kk] > 0 {
            rows.push((kk, sets[kk], valid[kk], wins[kk], losses[kk], draws[kk]));
        }
        kk += 1;
    }
    rows
}

// ── Sampled training labels ─────────────────────────────────────────────────

/// One xorshift64 step.
pub open spec fn xorshift(x: u64) -> u64 {
    let a = x ^ (x << 13u64);
    let b = a ^ (a >> 7u64);
    b ^ (b << 17u64)
}

/// Generator state after `t` steps from `seed` (forced odd, so never zero).
pub open spec fn rng_state(seed: u64, t: nat) -> u64
    decreases t,
{
    if t == 0 {
        seed | 1u64
    } else {
        xorshift(rng_state(seed, (t - 1) as nat))
    }
}

/// Index drawn at try `t` (tries count from 1).
pub open spec fn tried_index(seed: u64, t: nat, size: usize) -> int {
    ((rng_state(seed, t) as usize) % size) as int
}

/// Index `i` holds a game in progress.
pub open spec fn in_progress(pieces: Seq<u8>, i: int) -> bool {
    tablebase::tb_valid(pieces, i) && status::status_spec(tb_position(pieces, i)) is Playing
}

/// Indices kept by the first `t` tries: those that hold a game in progress, in the order drawn.
pub open spec fn picks(pieces: Seq<u8>, seed: u64, size: usize, t: nat) -> Seq<int>
    decreases t,
{
    if t == 0 {
        Seq::empty()
    } else {
        let prev = picks(pieces, seed, size, (t - 1) as nat);
        let i = tried_index(seed, t, size);
        if in_progress(pieces, i) {
            prev.push(i)
        } else {
            prev
        }
    }
}

/// Tries allowed for `n` labels: fifty per label, at least a hundred thousand.
pub open spec fn try_cap(n: usize) -> nat {
    let m = if n * 50 > usize::MAX {
        usize::MAX as int
    } else {
        n * 50
    };
    if m < 100000 {
        100000
    } else {
        m as nat
    }
}

/// Solves a material set and draws up to `n` games in progress from it with their exact table
/// value, as (board squares, side to move, value): indices come from an xorshift64 generator
/// seeded with `seed`, positions that are not games in progress are skipped, and drawing stops
/// after `n` labels or the try cap. The table is dropped afterwards.
pub fn sample_set_labels(pieces: &[u8], store: &Store, n: usize, seed: u64) -> (r: Vec<(Vec<u8>, u8, u8)>)
    requires
        solvable(pieces@),
        subtables_ready(pieces@, store@),
    ensures
        r@.len() <= n,
        exists|t: nat|
            t <= try_cap(n) && (r@.len() == n || t == try_cap(n)) && #[trigger] picks(
                pieces@,
                seed,
                tablebase::table_size(pieces@.len()) as usize,
                t,
            ).len() == r@.len() && forall|i: int|
                0 <= i < r@.len() ==> {
                    let idx = picks(pieces@, seed, tablebase::table_size(pieces@.len()) as usize, t)[i];
                    &&& (#[trigger] r@[i]).0@ == tablebase::placed_seq(pieces@, idx, pieces@.len() as int)
                    &&& r@[i].1 == idx % 2
                    &&& r@[i].2 <= 2
                    &&& subtables_framed(pieces@, store@) ==> r@[i].2 == solution(pieces@, store@)[idx]
                },
{
    let val = solve_set_onfly(pieces, store);
    let size = val.len();
    let ghost gsize = size;
    let mut rng: u64 = seed | 1;
    let mut out: Vec<(Vec<u8>, u8, u8)> = Vec::new();
    let m = match n.checked_mul(50) {
        Some(x) => x,
        None => usize::MAX,
    };
    let cap: usize = if m < 100000 {
        100000
    } else {
        m
    };
    let mut tries: usize = 0;
    proof {
        tablebase::lemma_pow63_pos(pieces@.len() as nat);
    }
    while out.len() < n && tries < cap
        invariant
            size == val@.len(),
            size == tablebase::table_size(pieces@.len()),
            size >= 2,
            solvable(pieces@),
            cap == try_cap(n),
            0 <= tries <= cap,
            rng == rng_state(seed, tries as nat),
            out@.len() <= n,
            picks(pieces@, seed, size, tries as nat).len() == out@.len(),
            forall|j: int| 0 <= j < size ==> #[trigger] frame_ok(pieces@, val@, j),
            forall|i: int|
                0 <= i < out@.len() ==> {
                    let idx = picks(pieces@, seed, size, tries as nat)[i];
                    &&& (#[trigger] out@[i]).0@ == tablebase::placed_seq(pieces@, idx, pieces@.len() as int)
                    &&& out@[i].1 == idx % 2
                    &&& out@[i].2 == val@[idx]
                    &&& 0 <= idx < size
                },
        decreases cap - tries,
    {
        tries += 1;
        rng = rng ^ (rng << 13u64);
        rng = rng ^ (rng >> 7u64);
        rng = rng ^ (rng << 17u64);
        let idx = (rng as usize) % size;
        let ghost prev = picks(pieces@, seed, size, (tries - 1) as nat);
        assert(idx == tried_index(seed, tries as nat, size));
        match tb_pos(pieces, idx) {
            Some(p) => {
                proof {
                    lemma_tb_pos_board(pieces@, idx as int, p);
                    lemma_tb_position(pieces@, idx as int, p);
                    lemma_board_facts(pieces@, idx as int, p);
                }
                match status_of(&p) {
                    Status::Playing => {
                        let mut sq: Vec<u8> = Vec::new();
                        let mut s: usize = 0;
                        while s < N
                            invariant
                                0 <= s <= 63,
                                sq@ == p.squares@.take(s as int),
                            decreases 63 - s,
                        {
                            sq.push(p.squares[s]);
                            s += 1;
                        }
                        assert(p.squares@.take(63) =~= p.squares@);
                        assert(frame_ok(pieces@, val@, idx as int));
                        let ghost before = out@;
                        out.push((sq, p.turn, val[idx]));
                        proof {
                            assert forall|i: int| 0 <= i < out@.len() implies {
                                let ix = picks(pieces@, seed, size, tries as nat)[i];
                                &&& (#[trigger] out@[i]).0@ == tablebase::placed_seq(pieces@, ix, pieces@.len() as int)
                                &&& out@[i].1 == ix % 2
                                &&& out@[i].2 == val@[ix]
                                &&& 0 <= ix < size
                            } by {
                                if i < before.len() {
                                    assert(out@[i] == before[i]);
                                }
                            }
                        }
                    },
                    _ => {},
                }
            },
            None => {},
        }
    }
    proof {
        if subtables_framed(pieces@, store@) {
            lemma_is_the_solution(pieces@, store@, val@);
        }
        let t = tries as nat;
        assert(tablebase::table_size(pieces@.len()) as usize == size);
        assert(t <= try_cap(n) && (out@.len() == n || t == try_cap(n)));
        assert(picks(pieces@, seed, tablebase::table_size(pieces@.len()) as usize, t).len() == out@.len());
        assert forall|i: int| 0 <= i < out@.len() implies {
            let idx = picks(pieces@, seed, tablebase::table_size(pieces@.len()) as usize, t)[i];
            &&& (#[trigger] out@[i]).0@ == tablebase::placed_seq(pieces@, idx, pieces@.len() as int)
            &&& out@[i].1 == idx % 2
            &&& out@[i].2 <= 2
            &&& subtables_framed(pieces@, store@) ==> out@[i].2 == solution(pieces@, store@)[idx]
        } by {
            let idx = picks(pieces@, seed, size, t)[i];
            assert(out@[i].2 == val@[idx]);
            assert(frame_ok(pieces@, val@, idx));
        }
    }
    out
}

// ── Checks a caller can make before solving ─────────────────────────────────

/// Does a table of `k` pieces fit in memory's index range?
pub fn table_fits(k: usize) -> (b: bool)
    ensures
        b == (tablebase::table_size(k as nat) <= usize::MAX),
{
    let mut n: usize = 2;
    let mut i: usize = 0;
    while i < k
        invariant
            0 <= i <= k,
            n == 2 * tablebase::pow63(i as nat),
        decreases k - i,
    {
        match n.checked_mul(63) {
            Some(x) => {
                n = x;
            },
            None => {
                proof {
                    tablebase::lemma_pow63_mono((i + 1) as nat, k as nat);
                }
                return false;
            },
        }
        i += 1;
    }
    true
}

/// The codes of `pieces` but its `j`-th, ascending.
fn sub_key_exec(pieces: &[u8], j: usize) -> (r: Vec<u8>)
    requires
        j < pieces@.len(),
    ensures
        r@ == tablebase::sub_key(pieces@, j as int),
{
    let ghost h = |x: int| pieces@.contains(x as u8) && x != pieces@[j as int];
    let mut r: Vec<u8> = Vec::new();
    let mut c: u8 = 1;
    while c <= 16
        invariant
            1 <= c <= 17,
            j < pieces@.len(),
            h == |x: int| pieces@.contains(x as u8) && x != pieces@[j as int],
            r@ == tablebase::codes_where(h, c - 1),
        decreases 17 - c,
    {
        let mut present = false;
        let mut a: usize = 0;
        while a < pieces.len()
            invariant
                0 <= a <= pieces@.len(),
                present == exists|b: int| 0 <= b < a && pieces@[b] == c,
            decreases pieces@.len() - a,
        {
            if pieces[a] == c {
                present = true;
            }
            a += 1;
        }
        assert(present == pieces@.contains(c));
        if present && c != pieces[j] {
            r.push(c);
        }
        c += 1;
    }
    r
}

fn both_colors_exec(s: &Vec<u8>) -> (b: bool)
    ensures
        b == tablebase::both_colors(s@),
{
    let mut red = false;
    let mut black = false;
    let mut i: usize = 0;
    while i < s.len()
        invariant
            0 <= i <= s@.len(),
            red == exists|k: int| 0 <= k < i && 1 <= #[trigger] s@[k] <= 8,
            black == exists|k: int| 0 <= k < i && 9 <= #[trigger] s@[k] <= 16,
        decreases s@.len() - i,
    {
        if 1 <= s[i] && s[i] <= 8 {
            red = true;
        }
        if 9 <= s[i] && s[i] <= 16 {
            black = true;
        }
        i += 1;
    }
    red && black
}

fn distinct_codes_exec(s: &[u8]) -> (b: bool)
    ensures
        b == tablebase::distinct_codes(s@),
{
    let mut i: usize = 0;
    while i < s.len()
        invariant
            0 <= i <= s@.len(),
            forall|a: int| 0 <= a < i ==> 1 <= #[trigger] s@[a] <= 16,
            forall|a: int, b: int| 0 <= a < i && 0 <= b < s@.len() && a != b ==> #[trigger] s@[a] != #[trigger] s@[b],
        decreases s@.len() - i,
    {
        if s[i] < 1 || s[i] > 16 {
            return false;
        }
        let mut k: usize = 0;
        while k < s.len()
            invariant
                0 <= k <= s@.len(),
                i < s@.len(),
                forall|b: int| 0 <= b < k && b != i ==> s@[i as int] != #[trigger] s@[b],
            decreases s@.len() - k,
        {
            if k != i && s[k] == s[i] {
                return false;
            }
            k += 1;
        }
        i += 1;
    }
    true
}

/// Is every table of the store as long as its set's index range?
pub fn store_is_sized(store: &Store) -> (b: bool)
    ensures
        b == tablebase::store_sized(store@),
{
    let keys = store.sets();
    let mut i: usize = 0;
    while i < keys.len()
        invariant
            0 <= i <= keys@.len(),
            forall|a: int| 0 <= a < keys@.len() ==> store@.contains_key(#[trigger] keys@[a]@),
            forall|s: Seq<u8>| store@.contains_key(s) ==> exists|a: int| 0 <= a < keys@.len() && #[trigger] keys@[a]@ == s,
            forall|a: int| 0 <= a < keys@.len() ==> tablebase::valid_key(#[trigger] keys@[a]@),
            forall|a: int| 0 <= a < i ==> store@[#[trigger] keys@[a]@].len() == tablebase::table_size(keys@[a]@.len()),
        decreases keys@.len() - i,
    {
        let t = store.get(keys[i].as_slice()).unwrap();
        let tl = t.len();
        let k = keys[i].len();
        if !table_fits(k) {
            assert(store@[keys@[i as int]@].len() != tablebase::table_size(keys@[i as int]@.len()));
            return false;
        }
        let n = table_len(k);
        if t.len() != n {
            return false;
        }
        i += 1;
    }
    proof {
        assert forall|key: Seq<u8>| #[trigger] store@.contains_key(key) implies store@[key].len() == tablebase::table_size(key.len()) by {
            let a = choose|a: int| 0 <= a < keys@.len() && #[trigger] keys@[a]@ == key;
        }
    }
    true
}

/// Can `pieces` be solved against `store`: distinct codes, a table in range, the store's
/// tables sized, and every sub-table a capture can need present?
pub fn can_solve(pieces: &[u8], store: &Store) -> (b: bool)
    ensures
        b == (solvable(pieces@) && subtables_ready(pieces@, store@)),
{
    if !distinct_codes_exec(pieces) || !table_fits(pieces.len()) || !store_is_sized(store) {
        return false;
    }
    let mut j: usize = 0;
    while j < pieces.len()
        invariant
            0 <= j <= pieces@.len(),
            forall|a: int|
                0 <= a < j && tablebase::both_colors(#[trigger] tablebase::sub_key(pieces@, a)) ==> store@.contains_key(
                    tablebase::sub_key(pieces@, a),
                ),
        decreases pieces@.len() - j,
    {
        let sk = sub_key_exec(pieces, j);
        if both_colors_exec(&sk) {
            match store.get(sk.as_slice()) {
                Some(_) => {},
                None => {
                    return false;
                },
            }
        }
        j += 1;
    }
    true
}

/// Can `pieces` be solved with no sub-table at all?
pub fn can_solve_alone(pieces: &[u8]) -> (b: bool)
    ensures
        b == (solvable(pieces@) && self_contained(pieces@)),
{
    if !distinct_codes_exec(pieces) || !table_fits(pieces.len()) {
        return false;
    }
    let mut j: usize = 0;
    while j < pieces.len()
        invariant
            0 <= j <= pieces@.len(),
            forall|a: int| 0 <= a < j ==> !tablebase::both_colors(#[trigger] tablebase::sub_key(pieces@, a)),
        decreases pieces@.len() - j,
    {
        let sk = sub_key_exec(pieces, j);
        if both_colors_exec(&sk) {
            return false;
        }
        j += 1;
    }
    true
}

} // verus!
