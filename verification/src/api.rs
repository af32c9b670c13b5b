use vstd::prelude::*;
use crate::board::{Parsed, Status, initial, make_move, parsed_from_squares};
use crate::board;
use crate::eval::eval_hand;
use crate::eval;
use crate::fen;
use crate::fen::{state_from_fen, to_fen};
use crate::movegen;
use crate::movegen::legal_moves;
use crate::notation;
use crate::notation::{move_to_uci, uci_to_move};
use crate::search;
use crate::search::{best_move, best_move_scored, best_move_scored_ext, best_move_scored_full, best_move_fixed_depth, root_move_values, Clock, NoClock};
use crate::status;
use crate::status::{status_of, board_status};
use crate::tablebase;
use crate::tablebase::{Store, probe_store, TB_WIN, TB_LOSS};
use crate::solver;
use crate::solver::solve_and_probe;
use crate::text;
use crate::text::{push_str, push_dec, push_signed};

verus! {

// ── Positions named by FEN text ─────────────────────────────────────────────

/// The position a FEN describes (meaningful when it reads).
pub open spec fn position_of(fen: Seq<char>) -> Parsed {
    choose|q: Parsed| fen::fen_parse_spec(fen) == Some((q.squares@, q.turn, q.progress, q.movenum))
}

/// A FEN that reads describes exactly one position.
proof fn lemma_position_of(fen: Seq<char>, q: Parsed)
    requires
        fen::fen_parse_spec(fen) == Some((q.squares@, q.turn, q.progress, q.movenum)),
    ensures
        position_of(fen) == q,
        board::valid_position(q),
{
    let q2 = position_of(fen);
    assert(fen::fen_parse_spec(fen) == Some((q2.squares@, q2.turn, q2.progress, q2.movenum)));
    assert(q2.squares =~= q.squares) by {
        broadcast use vstd::array::group_array_axioms;
        assert forall|s: int| 0 <= s < 63 implies q2.squares[s] == q.squares[s] by {
            assert(q2.squares@[s] == q.squares@[s]);
        }
    }
    fen::lemma_fen_parse_valid(fen, q);
}

/// A FEN whose clocks leave the search room to count moves (or one that does not read).
pub open spec fn fen_ready(fen: Seq<char>) -> bool {
    fen::fen_parse_spec(fen) matches Some(t) ==> t.2 < u32::MAX && t.3 <= u32::MAX - 128
}

/// Are a FEN's clocks fit for a search?
pub fn fen_ready_exec(fen: &str) -> (r: bool)
    ensures
        r == fen_ready(fen@),
{
    match state_from_fen(fen) {
        Some(q) => q.progress < u32::MAX && q.movenum <= u32::MAX - 128,
        None => true,
    }
}

/// `s` names a legal move of `p`, or is "(none)" when `p` has no legal move.
pub open spec fn names_legal_move(p: Parsed, s: Seq<char>) -> bool {
    if movegen::legal_moves_spec(p).len() == 0 {
        s == "(none)"@
    } else {
        exists|m: (u8, u8)| movegen::legal_moves_spec(p).contains(m) && s == #[trigger] notation::move_chars(m)
    }
}

/// A FEN whose position has a move that wins at once, searched with a budget and time limit
/// that let the first iteration complete.
pub open spec fn win_covered(fen: Seq<char>, nodes: u64, time_ms: u64) -> bool {
    &&& fen::fen_parse_spec(fen) is Some
    &&& search::depth_one_covered(position_of(fen), budget_of(nodes), time_ms as u128)
    &&& search::win_available(position_of(fen))
}

/// `s` names a legal move of `p` that wins at once.
pub open spec fn names_winning_move(p: Parsed, s: Seq<char>) -> bool {
    exists|m: (u8, u8)|
        #[trigger] movegen::legal_moves_spec(p).contains(m) && search::wins_at_once(p, m) && s == notation::move_chars(m)
}

/// A node budget with room kept above it (a budget that no search can reach anyway
/// is lowered to the largest such).
pub open spec fn budget_of(n: u64) -> u64 {
    if n > u64::MAX - search::NODE_SLACK {
        (u64::MAX - search::NODE_SLACK) as u64
    } else {
        n
    }
}

fn clamp_budget(n: u64) -> (r: u64)
    ensures
        r == budget_of(n),
{
    if n > u64::MAX - search::NODE_SLACK {
        u64::MAX - search::NODE_SLACK
    } else {
        n
    }
}

fn none_text() -> (s: String)
    ensures
        s@ == "(none)"@,
{
    let mut s = String::new();
    push_str(&mut s, "(none)");
    s
}

fn move_or_none(p: &Parsed, m: (u8, u8)) -> (s: String)
    requires
        movegen::legal_moves_spec(*p).len() == 0 ==> m == (255u8, 255u8),
        movegen::legal_moves_spec(*p).len() > 0 ==> movegen::legal_moves_spec(*p).contains(m),
    ensures
        names_legal_move(*p, s@),
        movegen::legal_moves_spec(*p).len() > 0 ==> s@ == notation::move_chars(m),
{
    proof {
        movegen::lemma_legal_moves_ok(*p);
        if movegen::legal_moves_spec(*p).len() > 0 {
            let j = choose|j: int| 0 <= j < movegen::legal_moves_spec(*p).len() && movegen::legal_moves_spec(*p)[j] == m;
            assert(movegen::move_ok(*p, movegen::legal_moves_spec(*p)[j]));
        }
    }
    if m.0 == 255 {
        none_text()
    } else {
        let s = move_to_uci(m);
        assert(names_legal_move(*p, s@));
        s
    }
}

// ── Searches on FEN text ────────────────────────────────────────────────────

/// Best move for a FEN (handcrafted evaluation), as move text, or "(none)" when the FEN does
/// not read or there is no legal move.
pub fn best_move_from_fen<K: Clock>(fen: &str, node_budget: u64, time_ms: u64, clock: &K) -> (s: String)
    requires
        fen_ready(fen@),
    ensures
        match fen::fen_parse_spec(fen@) {
            None => s@ == "(none)"@,
            Some(_) => names_legal_move(position_of(fen@), s@),
        },
        win_covered(fen@, node_budget, time_ms) ==> names_winning_move(position_of(fen@), s@),
{
    match state_from_fen(fen) {
        Some(p) => {
            proof {
                lemma_position_of(fen@, p);
            }
            let m = best_move(&p, clamp_budget(node_budget), time_ms, clock);
            move_or_none(&p, m)
        },
        None => none_text(),
    }
}

/// Best move for a FEN with repetition seeds and contempt (handcrafted evaluation), as move
/// text, or "(none)".
pub fn best_move_rep_from_fen<K: Clock>(
    fen: &str,
    nodes: u64,
    time_ms: u64,
    rep_fens: &[String],
    contempt: i32,
    clock: &K,
) -> (s: String)
    requires
        fen_ready(fen@),
        contempt > i32::MIN,
    ensures
        match fen::fen_parse_spec(fen@) {
            None => s@ == "(none)"@,
            Some(_) => names_legal_move(position_of(fen@), s@),
        },
        win_covered(fen@, nodes, time_ms) && contempt < search::WIN ==> names_winning_move(position_of(fen@), s@),
{
    match state_from_fen(fen) {
        Some(p) => {
            proof {
                lemma_position_of(fen@, p);
            }
            let m = best_move_scored_full(&p, Some(&search::hand_leaf), None, clamp_budget(nodes), time_ms, rep_fens, contempt, clock).0;
            move_or_none(&p, m)
        },
        None => none_text(),
    }
}

/// Best move for a FEN with an optional leaf evaluator (the handcrafted evaluation when none)
/// and an optional store of tables read at the leaves, as move text; "(none)" when the FEN does
/// not read or its position has no legal move.
pub fn best_move_with_from_fen<L: Fn(&Parsed) -> i32, K: Clock>(
    fen: &str,
    net: Option<&L>,
    tb: Option<&Store>,
    nodes: u64,
    time_ms: u64,
    rep_fens: &[String],
    contempt: i32,
    clock: &K,
) -> (s: String)
    requires
        fen_ready(fen@),
        contempt > i32::MIN,
        search::net_ok(net),
        search::tb_ok(tb),
    ensures
        match fen::fen_parse_spec(fen@) {
            None => s@ == "(none)"@,
            Some(_) => names_legal_move(position_of(fen@), s@),
        },
        win_covered(fen@, nodes, time_ms) && contempt < search::WIN ==> names_winning_move(position_of(fen@), s@),
{
    match state_from_fen(fen) {
        Some(p) => {
            proof {
                lemma_position_of(fen@, p);
            }
            let m = best_move_scored_full(&p, net, tb, clamp_budget(nodes), time_ms, rep_fens, contempt, clock).0;
            move_or_none(&p, m)
        },
        None => none_text(),
    }
}

/// Like `best_move_rep_from_fen`, with the search extensions switched by `ext`.
pub fn best_move_ext_from_fen<K: Clock>(
    fen: &str,
    nodes: u64,
    time_ms: u64,
    rep_fens: &[String],
    contempt: i32,
    ext: bool,
    clock: &K,
) -> (s: String)
    requires
        fen_ready(fen@),
        contempt > i32::MIN,
    ensures
        match fen::fen_parse_spec(fen@) {
            None => s@ == "(none)"@,
            Some(_) => names_legal_move(position_of(fen@), s@),
        },
        win_covered(fen@, nodes, time_ms) && contempt < search::WIN ==> names_winning_move(position_of(fen@), s@),
{
    match state_from_fen(fen) {
        Some(p) => {
            proof {
                lemma_position_of(fen@, p);
            }
            let m = best_move_scored_ext(&p, Some(&search::hand_leaf), None, clamp_budget(nodes), time_ms, rep_fens, contempt, ext, clock).0;
            move_or_none(&p, m)
        },
        None => none_text(),
    }
}

/// `s` names a legal move of `p` of greatest value for the fixed-depth search of `depth`
/// plies, or is "(none)" when `p` has no legal move.
pub open spec fn names_fixed_best(p: Parsed, depth: int, s: Seq<char>) -> bool {
    &&& names_legal_move(p, s)
    &&& movegen::legal_moves_spec(p).len() > 0 ==> exists|m: (u8, u8)|
        #[trigger] movegen::legal_moves_spec(p).contains(m) && s == notation::move_chars(m)
            && forall|w: (u8, u8)| #[trigger] movegen::legal_moves_spec(p).contains(w)
                ==> search::move_value(p, w, depth, 0) <= search::move_value(p, m, depth, 0)
}

/// Best move of the plain fixed-depth search for a FEN, as move text, or "(none)".
pub fn best_move_fixed_depth_from_fen(fen: &str, depth: i32) -> (s: String)
    requires
        fen::fen_parse_spec(fen@) matches Some(t) ==> t.2 < u32::MAX && t.3 + search::LINE_CAP <= u32::MAX,
        depth > i32::MIN,
    ensures
        match fen::fen_parse_spec(fen@) {
            None => s@ == "(none)"@,
            Some(_) => names_fixed_best(position_of(fen@), depth as int, s@),
        },
{
    match state_from_fen(fen) {
        Some(p) => {
            proof {
                lemma_position_of(fen@, p);
            }
            let m = best_move_fixed_depth(&p, depth);
            move_or_none(&p, m)
        },
        None => none_text(),
    }
}

/// Root score (side to move's view) of a deep search of a FEN; 0 when it does not read.
pub fn search_value_from_fen<K: Clock>(fen: &str, nodes: u64, time_ms: u64, clock: &K) -> (v: i32)
    requires
        fen_ready(fen@),
    ensures
        fen::fen_parse_spec(fen@) is None ==> v == 0,
        fen::fen_parse_spec(fen@) is Some && movegen::legal_moves_spec(position_of(fen@)).len() == 0 ==> v == -search::WIN,
        win_covered(fen@, nodes, time_ms) ==> v == search::WIN,
{
    match state_from_fen(fen) {
        Some(p) => {
            proof {
                lemma_position_of(fen@, p);
            }
            best_move_scored(&p, clamp_budget(nodes), time_ms, clock).1
        },
        None => 0,
    }
}

/// Best move and root score of one search of a FEN: ("(none)", 0) when it does not read.
pub fn best_move_and_value_from_fen<K: Clock>(fen: &str, nodes: u64, time_ms: u64, clock: &K) -> (r: (String, i32))
    requires
        fen_ready(fen@),
    ensures
        match fen::fen_parse_spec(fen@) {
            None => r.0@ == "(none)"@ && r.1 == 0,
            Some(_) => names_legal_move(position_of(fen@), r.0@) && (movegen::legal_moves_spec(position_of(fen@)).len()
                == 0 ==> r.1 == -search::WIN),
        },
        win_covered(fen@, nodes, time_ms) ==> names_winning_move(position_of(fen@), r.0@) && r.1 == search::WIN,
{
    match state_from_fen(fen) {
        Some(p) => {
            proof {
                lemma_position_of(fen@, p);
            }
            let (m, sc) = best_move_scored(&p, clamp_budget(nodes), time_ms, clock);
            (move_or_none(&p, m), sc)
        },
        None => (none_text(), 0),
    }
}

// ── Rules on FEN text ───────────────────────────────────────────────────────

/// Sort key of a move name "<file><rank><file><rank>": its characters' order.
pub open spec fn name_key(m: (u8, u8)) -> int {
    (((m.0 % 7) * 9 + m.0 / 7) * 7 + m.1 % 7) * 9 + m.1 / 7
}

fn name_key_exec(m: (u8, u8)) -> (k: u32)
    ensures
        k == name_key(m),
{
    (((m.0 % 7) as u32 * 9 + (m.0 / 7) as u32) * 7 + (m.1 % 7) as u32) * 9 + (m.1 / 7) as u32
}

/// `order` lists the legal moves of `p`, each once, in the order of their text.
pub open spec fn name_order(p: Parsed, order: Seq<(u8, u8)>) -> bool {
    &&& order.len() == movegen::legal_moves_spec(p).len()
    &&& forall|m: (u8, u8)| #[trigger] order.contains(m) <==> movegen::legal_moves_spec(p).contains(m)
    &&& forall|i: int, j: int| 0 <= i < j < order.len() ==> name_key(#[trigger] order[i]) <= name_key(#[trigger] order[j])
}

/// The legal moves of a FEN's position as move text, in text order; empty when the FEN does
/// not read.
pub fn legal_moves_from_fen(fen: &str) -> (r: Vec<String>)
    ensures
        fen::fen_parse_spec(fen@) is None ==> r@.len() == 0,
        fen::fen_parse_spec(fen@) is Some ==> exists|order: Seq<(u8, u8)>|
            {
                &&& #[trigger] name_order(position_of(fen@), order)
                &&& r@.len() == order.len()
                &&& forall|i: int| 0 <= i < r@.len() ==> #[trigger] r@[i]@ == notation::move_chars(order[i])
            },
{
    match state_from_fen(fen) {
        Some(p) => {
            proof {
                lemma_position_of(fen@, p);
            }
            let moves = legal_moves(&p);
            let mut keyed: Vec<(i32, (u8, u8))> = Vec::new();
            let mut i: usize = 0;
            proof {
                movegen::lemma_legal_moves_ok(p);
            }
            while i < moves.len()
                invariant
                    0 <= i <= moves@.len(),
                    moves@ == movegen::legal_moves_spec(p),
                    keyed@.len() == i,
                    forall|j: int| 0 <= j < i ==> #[trigger] keyed@[j].1 == moves@[j],
                    forall|j: int| 0 <= j < i ==> #[trigger] keyed@[j].0 == -name_key(keyed@[j].1),
                    forall|j: int| 0 <= j < moves@.len() ==> #[trigger] movegen::move_ok(p, moves@[j]),
                decreases moves@.len() - i,
            {
                let m = moves[i];
                assert(movegen::move_ok(p, moves@[i as int]));
                let k = name_key_exec(m);
                assert(k <= 4000) by {
                    assert(m.0 < 63 && m.1 < 63);
                }
                keyed.push((-(k as i32), m));
                i += 1;
            }
            let ghost kd = keyed@;
            let sorted = search::sort_scored(keyed);
            let ordered = search::moves_of(&sorted);
            proof {
                search::lemma_sorted_moves(moves@, kd, sorted@, ordered@);
            }
            let mut out: Vec<String> = Vec::new();
            let mut k: usize = 0;
            while k < ordered.len()
                invariant
                    0 <= k <= ordered@.len(),
                    out@.len() == k,
                    forall|j: int| 0 <= j < k ==> #[trigger] out@[j]@ == notation::move_chars(ordered@[j]),
                decreases ordered@.len() - k,
            {
                let s = move_to_uci(ordered[k]);
                out.push(s);
                k += 1;
            }
            proof {
                assert forall|a: int| 0 <= a < sorted@.len() implies #[trigger] sorted@[a].0 == -name_key(sorted@[a].1) by {
                    broadcast use vstd::seq_lib::group_to_multiset_ensures;
                    assert(sorted@.contains(sorted@[a]));
                    vstd::seq_lib::to_multiset_contains(sorted@, sorted@[a]);
                    vstd::seq_lib::to_multiset_contains(kd, sorted@[a]);
                    assert(kd.contains(sorted@[a]));
                }
                assert forall|a: int, b: int| 0 <= a < b < ordered@.len() implies name_key(#[trigger] ordered@[a]) <= name_key(
                    #[trigger] ordered@[b],
                ) by {
                    assert(search::sorts_before(sorted@[a], sorted@[b]));
                    assert(sorted@[a].0 == -name_key(sorted@[a].1));
                    assert(sorted@[b].0 == -name_key(sorted@[b].1));
                }
                assert(ordered@.len() == movegen::legal_moves_spec(p).len());
                assert(name_order(p, ordered@));
            }
            out
        },
        None => Vec::new(),
    }
}

/// The starting position's FEN.
pub fn initial_fen() -> (s: String)
    ensures
        exists|p: Parsed|
            {
                &&& forall|i: int| 0 <= i < 63 ==> #[trigger] p.squares[i] == board::initial_code(i)
                &&& p.turn == 0
                &&& p.progress == 0
                &&& p.movenum == 1
                &&& #[trigger] fen::fen_string(p) == s@
            },
{
    let p = initial();
    to_fen(&p)
}

/// Name of a status: "playing", "red" (red won), "black" (black won) or "draw".
pub open spec fn status_name(s: Status) -> Seq<char> {
    match s {
        Status::Playing => "playing"@,
        Status::Win(c) => if c == 0 {
            "red"@
        } else {
            "black"@
        },
        Status::Draw => "draw"@,
    }
}

/// Name of a status.
pub fn status_str(s: Status) -> (r: String)
    ensures
        r@ == status_name(s),
{
    let mut r = String::new();
    match s {
        Status::Playing => push_str(&mut r, "playing"),
        Status::Win(c) => {
            if c == 0 {
                push_str(&mut r, "red")
            } else {
                push_str(&mut r, "black")
            }
        },
        Status::Draw => push_str(&mut r, "draw"),
    }
    r
}

/// Static status of a FEN's position by name, or "invalid" when it does not read.
pub fn status_from_fen(fen: &str) -> (r: String)
    ensures
        match fen::fen_parse_spec(fen@) {
            None => r@ == "invalid"@,
            Some(_) => r@ == status_name(status::status_spec(position_of(fen@))),
        },
{
    match state_from_fen(fen) {
        Some(p) => {
            proof {
                lemma_position_of(fen@, p);
            }
            status_str(status_of(&p))
        },
        None => {
            let mut r = String::new();
            push_str(&mut r, "invalid");
            r
        },
    }
}

/// A FEN whose clocks can count one more move.
pub open spec fn fen_can_move(fen: Seq<char>) -> bool {
    fen::fen_parse_spec(fen) matches Some(t) ==> t.2 < u32::MAX && t.3 < u32::MAX
}

/// Applies a move text to a FEN (any from/to, as given): the resulting FEN and its status by
/// name; ("invalid", "invalid") when the FEN or the move text does not read.
pub fn move_result_from_fen(fen: &str, uci: &str) -> (r: (String, String))
    requires
        fen_can_move(fen@),
    ensures
        match (fen::fen_parse_spec(fen@), notation::uci_spec(vstd::utf8::encode_utf8(uci@))) {
            (Some(_), Some(m)) => exists|np: Parsed|
                {
                    &&& search::is_after(position_of(fen@), m, np)
                    &&& #[trigger] r.0@ == fen::fen_string(np)
                    &&& r.1@ == status_name(status::board_status_spec(np, m.1))
                },
            _ => r.0@ == "invalid"@ && r.1@ == "invalid"@,
        },
{
    let ps = state_from_fen(fen);
    let mv = uci_to_move(uci);
    match (ps, mv) {
        (Some(p), Some(m)) => {
            proof {
                lemma_position_of(fen@, p);
                notation::lemma_uci_spec_bounds(vstd::utf8::encode_utf8(uci@));
            }
            let np = make_move(&p, m);
            let f = to_fen(&np);
            let st = status_str(board_status(&np, m.1));
            (f, st)
        },
        _ => {
            let mut a = String::new();
            push_str(&mut a, "invalid");
            let mut b = String::new();
            push_str(&mut b, "invalid");
            (a, b)
        },
    }
}

/// Handcrafted evaluations of many boards at once: board `i` is `squares_flat[63 * i ..
/// 63 * i + 63]` with side to move `stms[i]`.
pub fn eval_hand_batch(squares_flat: &[u8], stms: &[u8]) -> (r: Vec<i32>)
    requires
        63 * stms@.len() <= squares_flat@.len(),
    ensures
        r@.len() == stms@.len(),
        forall|i: int|
            0 <= i < r@.len() ==> #[trigger] r@[i] == eval::eval_sum(
                board_of(squares_flat@.subrange(63 * i, 63 * i + 63), stms@[i]),
                63,
            ),
{
    let n = squares_flat.len();
    let mut r: Vec<i32> = Vec::new();
    let mut i: usize = 0;
    while i < stms.len()
        invariant
            0 <= i <= stms@.len(),
            63 * stms@.len() <= squares_flat@.len(),
            squares_flat@.len() == n,
            r@.len() == i,
            forall|j: int|
                0 <= j < i ==> #[trigger] r@[j] == eval::eval_sum(
                    board_of(squares_flat@.subrange(63 * j, 63 * j + 63), stms@[j]),
                    63,
                ),
        decreases stms@.len() - i,
    {
        let mut chunk: Vec<u8> = Vec::new();
        let mut s: usize = 0;
        assert(63 * i + 63 <= 63 * stms@.len()) by (nonlinear_arith)
            requires
                i < stms@.len(),
        ;
        while s < 63
            invariant
                0 <= s <= 63,
                i < stms@.len(),
                63 * i + 63 <= squares_flat@.len(),
                squares_flat@.len() == n,
                chunk@ == squares_flat@.subrange(63 * i, 63 * i + s),
            decreases 63 - s,
        {
            chunk.push(squares_flat[63 * i + s]);
            assert(squares_flat@.subrange(63 * i, 63 * i + s + 1) == squares_flat@.subrange(63 * i, 63 * i + s).push(
                squares_flat@[63 * i + s],
            ));
            s += 1;
        }
        let p = parsed_from_squares(chunk.as_slice(), stms[i]);
        proof {
            lemma_board_of(chunk@, stms@[i as int], p);
        }
        r.push(eval_hand(&p));
        i += 1;
    }
    r
}

/// The board with these 63 squares and this side to move (clocks at their start).
pub open spec fn board_of(sq: Seq<u8>, turn: u8) -> Parsed {
    choose|q: Parsed| q.squares@ == sq && q.turn == turn && q.progress == 0 && q.movenum == 1
}

proof fn lemma_board_of(sq: Seq<u8>, turn: u8, q: Parsed)
    requires
        sq.len() == 63,
        forall|i: int| 0 <= i < 63 ==> #[trigger] q.squares[i] == sq[i],
        q.turn == turn,
        q.progress == 0,
        q.movenum == 1,
    ensures
        board_of(sq, turn) == q,
{
    assert(q.squares@ =~= sq) by {
        broadcast use vstd::array::group_array_axioms;
        assert forall|i: int| 0 <= i < 63 implies q.squares@[i] == sq[i] by {
            assert(q.squares[i] == sq[i]);
        }
    }
    let q2 = board_of(sq, turn);
    assert(q2.squares =~= q.squares) by {
        broadcast use vstd::array::group_array_axioms;
        assert forall|i: int| 0 <= i < 63 implies q2.squares[i] == q.squares[i] by {
            assert(q2.squares@[i] == q.squares@[i]);
        }
    }
}

// ── Tablebase on FEN text ───────────────────────────────────────────────────

/// Name of a table value: "win", "loss" or "draw".
pub open spec fn wdl_name(v: u8) -> Seq<char> {
    if v == TB_WIN {
        "win"@
    } else if v == TB_LOSS {
        "loss"@
    } else {
        "draw"@
    }
}

/// Solves a self-contained set and names the value of a FEN's position in it; "invalid" when
/// the FEN does not read.
pub fn tb_probe(pieces: &[u8], fen: &str) -> (r: String)
    requires
        solver::solvable(pieces@),
        solver::self_contained(pieces@),
        fen::fen_parse_spec(fen@) is Some ==> crate::tablebase::all_present(pieces@, position_of(fen@)),
    ensures
        match fen::fen_parse_spec(fen@) {
            None => r@ == "invalid"@,
            Some(_) => r@ == wdl_name(
                solver::solution(pieces@, Map::empty())[crate::tablebase::tb_index_spec(pieces@, position_of(fen@))],
            ),
        },
{
    let mut r = String::new();
    match state_from_fen(fen) {
        Some(p) => {
            proof {
                lemma_position_of(fen@, p);
            }
            let v = solve_and_probe(pieces, &p);
            if v == TB_WIN {
                push_str(&mut r, "win");
            } else if v == TB_LOSS {
                push_str(&mut r, "loss");
            } else {
                push_str(&mut r, "draw");
            }
        },
        None => push_str(&mut r, "invalid"),
    }
    r
}

/// Name of a store's answer for a position: the value's name, or "nottb" without a table.
pub open spec fn probe_name(r: Option<u8>) -> Seq<char> {
    match r {
        Some(v) => wdl_name(v),
        None => "nottb"@,
    }
}

/// Value of a FEN's position in a store of tables, by name: "win", "loss" or "draw"; "nottb"
/// when the store holds no table for its material; "invalid" when the FEN does not read.
pub fn probe_fen(store: &Store, fen: &str) -> (r: String)
    requires
        tablebase::store_sized(store@),
    ensures
        match fen::fen_parse_spec(fen@) {
            None => r@ == "invalid"@,
            Some(_) => r@ == probe_name(tablebase::probe_spec(store@, position_of(fen@))),
        },
{
    let mut r = String::new();
    match state_from_fen(fen) {
        Some(p) => {
            proof {
                lemma_position_of(fen@, p);
            }
            match probe_store(store, &p) {
                Some(v) => {
                    if v == TB_WIN {
                        push_str(&mut r, "win");
                    } else if v == TB_LOSS {
                        push_str(&mut r, "loss");
                    } else {
                        push_str(&mut r, "draw");
                    }
                },
                None => push_str(&mut r, "nottb"),
            }
        },
        None => push_str(&mut r, "invalid"),
    }
    r
}

// ── Browser analysis ────────────────────────────────────────────────────────

/// JSON of the first `k` ranked lines: `{"uci":..,"cp":..,"depth":..}` joined by commas.
pub open spec fn json_lines(ranked: Seq<(u8, u8, i32, i32)>, k: int) -> Seq<char>
    decreases k,
{
    if k <= 0 {
        Seq::empty()
    } else {
        let l = ranked[k - 1];
        json_lines(ranked, k - 1) + (if k > 1 {
            ","@
        } else {
            Seq::empty()
        }) + "{\"uci\":\""@ + notation::move_chars((l.0, l.1)) + "\",\"cp\":"@ + text::signed_chars(l.2 as int)
            + ",\"depth\":"@ + text::signed_chars(l.3 as int) + "}"@
    }
}

/// Number of lines shown for `multipv` out of `n`: at least one, at most `n`.
pub open spec fn shown(multipv: u32, n: int) -> int {
    let want: int = if multipv < 1 {
        1
    } else {
        multipv as int
    };
    if want < n {
        want
    } else {
        n
    }
}

/// Exact values of the best `multipv` root moves of a FEN as JSON
/// `{"lines":[{"uci":"d1d2","cp":123,"depth":6},...]}` (best first), `{"lines":[]}` with no legal
/// move, or `{"error":"bad_fen"}` when the FEN does not read. The search is bounded by the node
/// budget alone.
pub fn analyze(fen: &str, nodes: u32, multipv: u32) -> (out: String)
    requires
        fen_ready(fen@),
    ensures
        fen::fen_parse_spec(fen@) is None ==> out@ == "{\"error\":\"bad_fen\"}"@,
        fen::fen_parse_spec(fen@) is Some ==> exists|ranked: Seq<(u8, u8, i32, i32)>|
            {
                &&& (ranked.len() == 0 || (ranked.len() == movegen::legal_moves_spec(position_of(fen@)).len()
                    && search::lines_ok(position_of(fen@), Seq::new(ranked.len(), |i: int| (ranked[i].2, (ranked[i].0, ranked[i].1))))))
                &&& movegen::legal_moves_spec(position_of(fen@)).len() == 0 ==> ranked.len() == 0
                &&& search::depth_one_covered(position_of(fen@), nodes as u64, 0) ==> ranked.len()
                    == movegen::legal_moves_spec(position_of(fen@)).len()
                &&& forall|i: int|
                    0 <= i < ranked.len() && #[trigger] search::wins_at_once(position_of(fen@), (ranked[i].0, ranked[i].1))
                        ==> ranked[i].2 == search::WIN
                &&& forall|i: int|
                    0 <= i < ranked.len() && ranked[i].3 == 1 ==> #[trigger] ranked[i].2 == search::analysis_first_value(
                        position_of(fen@),
                        (ranked[i].0, ranked[i].1),
                    )
                &&& ranked.len() > 0 && search::win_available(position_of(fen@)) ==> ranked[0].3 == 1
                &&& forall|i: int|
                    0 <= i < ranked.len() && ranked[i].3 == 1 && !search::wins_at_once(position_of(fen@), (ranked[i].0, ranked[i].1))
                        ==> #[trigger] ranked[i].2 < search::WIN
                &&& #[trigger] out@ == "{\"lines\":["@ + json_lines(ranked, shown(multipv, ranked.len() as int)) + "]}"@
            },
{
    let parsed = match state_from_fen(fen) {
        Some(p) => p,
        None => {
            let mut e = String::new();
            push_str(&mut e, "{\"error\":\"bad_fen\"}");
            return e;
        },
    };
    proof {
        lemma_position_of(fen@, parsed);
    }
    let ranked = root_move_values(&parsed, nodes as u64, 0, &NoClock);
    let want: usize = if multipv < 1 {
        1
    } else {
        multipv as usize
    };
    let take: usize = if want < ranked.len() {
        want
    } else {
        ranked.len()
    };
    let mut out = String::new();
    push_str(&mut out, "{\"lines\":[");
    let ghost head = out@;
    let mut i: usize = 0;
    while i < take
        invariant
            0 <= i <= take <= ranked@.len(),
            out@ == head + json_lines(ranked@, i as int),
        decreases take - i,
    {
        let (from, to, score, depth) = ranked[i];
        if i > 0 {
            push_str(&mut out, ",");
        }
        let uci = move_to_uci((from, to));
        push_str(&mut out, "{\"uci\":\"");
        push_str(&mut out, uci.as_str());
        push_str(&mut out, "\",\"cp\":");
        push_signed(&mut out, score as i64);
        push_str(&mut out, ",\"depth\":");
        push_signed(&mut out, depth as i64);
        push_str(&mut out, "}");
        proof {
            let l = ranked@[i as int];
            assert(out@ =~= head + json_lines(ranked@, i + 1));
        }
        i += 1;
    }
    push_str(&mut out, "]}");
    proof {
        assert(shown(multipv, ranked@.len() as int) == take);
        assert(out@ == "{\"lines\":["@ + json_lines(ranked@, shown(multipv, ranked@.len() as int)) + "]}"@);
    }
    out
}

} // verus!
