use vstd::prelude::*;
use crate::board::{Parsed, make_move, opp_den, role_of, PROGRESS_LIMIT, N};
use crate::board;
use crate::movegen;
use crate::movegen::legal_moves;
use crate::status;
use crate::status::color_has_pieces;
use crate::eval;
use crate::eval::{eval_hand, piece_value};
use crate::tablebase;
use crate::tablebase::{Store, probe_store, TB_WIN, TB_LOSS};
use crate::fen;
use crate::fen::state_from_fen;

verus! {

/// Score of a won position (minus the plies to the win).
pub const WIN: i32 = 1000000;
/// Window bound beyond every score.
pub const INF: i32 = 2000000;
/// Deepest iterative-deepening iteration.
pub const MAX_DEPTH: i32 = 24;
/// Transposition-table entries (2^18).
const TT_SIZE: usize = 262144;
const TT_MASK: u64 = 262143;
/// Leaf score of a tablebase win (below a mate score).
pub const TB_SCORE: i32 = 500000;
/// Killer-move slots (one pair per ply).
const KILLER_SLOTS: usize = 32;
/// History entries, one per (from, to) pair.
const HISTORY_LEN: usize = 3969;
/// Largest magnitude a leaf evaluation may have.
pub const LEAF_BOUND: i32 = 600000;
/// Room kept above every node budget, so that node counts never reach the top of `u64`.
pub const NODE_SLACK: u64 = 2;

// ── The clock ───────────────────────────────────────────────────────────────

/// A source of time for searches with a time limit: a reading in milliseconds from some fixed
/// origin. The search reads it only when a time limit is set, and then claims nothing of the
/// readings beyond the limit they may end a search under; a search driven by its node budget
/// alone never reads it.
pub trait Clock {
    fn now_ms(&self) -> u64;
}

/// A clock that never advances, for searches driven by the node budget alone (and platforms
/// without a clock): under it a time limit never ends a search.
pub struct NoClock;

impl Clock for NoClock {
    fn now_ms(&self) -> u64 {
        0
    }
}

// ── Zobrist keys ────────────────────────────────────────────────────────────

/// One step of the splitmix64 generator from state `x`: the new state and its output.
pub open spec fn splitmix_spec(x: u64) -> (u64, u64) {
    let x2 = vstd::wrapping::u64_specs::wrapping_add(x, 0x9E3779B97F4A7C15u64);
    let v1 = vstd::wrapping::u64_specs::wrapping_mul(x2 ^ (x2 >> 30u64), 0xBF58476D1CE4E5B9u64);
    let v2 = vstd::wrapping::u64_specs::wrapping_mul(v1 ^ (v1 >> 27u64), 0x94D049BB133111EBu64);
    (x2, v2 ^ (v2 >> 31u64))
}

/// One step of the splitmix64 generator: the new state and its output.
fn splitmix_next(x: u64) -> (r: (u64, u64))
    ensures
        r == splitmix_spec(x),
{
    let x2 = x.wrapping_add(0x9E3779B97F4A7C15u64);
    let mut v = x2;
    v = (v ^ (v >> 30u64)).wrapping_mul(0xBF58476D1CE4E5B9u64);
    v = (v ^ (v >> 27u64)).wrapping_mul(0x94D049BB133111EBu64);
    (x2, v ^ (v >> 31u64))
}

/// State of the key generator after `n` steps.
pub open spec fn zobrist_state(n: nat) -> u64
    decreases n,
{
    if n == 0 {
        0x9E3779B97F4A7C15u64
    } else {
        splitmix_spec(zobrist_state((n - 1) as nat)).0
    }
}

/// The search's Zobrist keys: the generator's first 17 * 63 outputs, one per (piece code,
/// square).
pub open spec fn zobrist_keys() -> Seq<u64> {
    Seq::new(17 * 63, |i: int| splitmix_spec(zobrist_state(i as nat)).1)
}

/// The search's side-to-move key: the generator's next output.
pub open spec fn zobrist_side() -> u64 {
    splitmix_spec(zobrist_state(17 * 63)).1
}

/// Zobrist keys: one per (piece code 0..16, square), row-major, then the side-to-move key.
fn build_zobrist() -> (r: (Vec<u64>, u64))
    ensures
        r.0@.len() == 17 * 63,
        r.0@ == zobrist_keys(),
        r.1 == zobrist_side(),
{
    let mut z: Vec<u64> = Vec::new();
    let mut x: u64 = 0x9E3779B97F4A7C15u64;
    let mut i: usize = 0;
    while i < 17 * 63
        invariant
            0 <= i <= 17 * 63,
            z@.len() == i,
            x == zobrist_state(i as nat),
            forall|j: int| 0 <= j < i ==> #[trigger] z@[j] == splitmix_spec(zobrist_state(j as nat)).1,
        decreases 17 * 63 - i,
    {
        let (x2, v) = splitmix_next(x);
        x = x2;
        z.push(v);
        i += 1;
    }
    let (_, side) = splitmix_next(x);
    assert(z@ =~= zobrist_keys());
    (z, side)
}

/// Exclusive or of the keys of the pieces on the first `n` squares: the key of piece code `c`
/// on square `i` is `z[63 * c + i]`.
pub open spec fn zkey_upto(sq: Seq<u8>, z: Seq<u64>, n: int) -> u64
    decreases n,
{
    if n <= 0 {
        0
    } else {
        let k = zkey_upto(sq, z, n - 1);
        let c = sq[n - 1];
        if c != 0 {
            k ^ z[c * 63 + n - 1]
        } else {
            k
        }
    }
}

/// Zobrist key of a board: its pieces' keys, with the side key when black is to move.
pub open spec fn zkey_spec(sq: Seq<u8>, turn: u8, z: Seq<u64>, side: u64) -> u64 {
    if turn == 1 {
        zkey_upto(sq, z, 63) ^ side
    } else {
        zkey_upto(sq, z, 63)
    }
}

/// Zobrist key of a position.
fn zkey(p: &Parsed, z: &Vec<u64>, side: u64) -> (k: u64)
    requires
        z@.len() == 17 * 63,
        board::valid_position(*p),
    ensures
        k == zkey_spec(p.squares@, p.turn, z@, side),
{
    let mut k: u64 = 0;
    let mut idx: usize = 0;
    while idx < N
        invariant
            0 <= idx <= 63,
            z@.len() == 17 * 63,
            board::valid_position(*p),
            k == zkey_upto(p.squares@, z@, idx as int),
        decreases 63 - idx,
    {
        let c = p.squares[idx];
        if c != 0 {
            assert(p.squares[idx as int] <= 16);
            k = k ^ z[c as usize * 63 + idx];
        }
        idx += 1;
    }
    if p.turn == 1 {
        k = k ^ side;
    }
    k
}

// ── Transposition table ─────────────────────────────────────────────────────

#[derive(Clone, Copy)]
struct TtEntry {
    key: u64,
    depth: i32,
    value: i32,
    /// 0 empty, 1 exact, 2 lower bound, 3 upper bound.
    flag: u8,
    mv: (u8, u8),
}

/// A table whose every entry holds a negatable score.
spec fn tt_ok(tt: Seq<TtEntry>) -> bool {
    &&& tt.len() == TT_SIZE
    &&& forall|i: int| 0 <= i < tt.len() ==> #[trigger] tt[i].value > i32::MIN
}

/// The table has an entry for `key`.
spec fn tt_holds(tt: Seq<TtEntry>, key: u64) -> bool {
    exists|i: int| 0 <= i < tt.len() && #[trigger] tt[i].flag != 0 && tt[i].key == key
}

/// `key` is on the budget's search path or among its repetition seeds.
spec fn repeated(b: Budget, key: u64) -> bool {
    b.path@.contains(key) || b.rep_seed@.contains(key)
}

/// Largest magnitude a search score may have under contempt `c`: a mate score, or the draw
/// score `-c` when that is larger.
pub open spec fn score_bound(c: i32) -> int {
    if c > WIN {
        c as int
    } else if -c > WIN {
        -c
    } else {
        WIN as int
    }
}

/// Every table entry holds a score within `b`.
spec fn tt_within(tt: Seq<TtEntry>, b: int) -> bool {
    forall|i: int| 0 <= i < tt.len() ==> -b <= #[trigger] tt[i].value <= b
}

/// A table with no entry.
spec fn tt_empty(tt: Seq<TtEntry>) -> bool {
    forall|i: int| 0 <= i < tt.len() ==> #[trigger] tt[i].flag == 0
}

fn new_tt() -> (tt: Vec<TtEntry>)
    ensures
        tt_ok(tt@),
        tt_empty(tt@),
        forall|i: int| 0 <= i < tt@.len() ==> #[trigger] tt@[i].value == 0,
{
    let mut tt: Vec<TtEntry> = Vec::with_capacity(TT_SIZE);
    let mut i: usize = 0;
    while i < TT_SIZE
        invariant
            0 <= i <= TT_SIZE,
            tt@.len() == i,
            forall|j: int| 0 <= j < i ==> #[trigger] tt@[j].value > i32::MIN,
            forall|j: int| 0 <= j < i ==> #[trigger] tt@[j].flag == 0,
            forall|j: int| 0 <= j < i ==> #[trigger] tt@[j].value == 0,
        decreases TT_SIZE - i,
    {
        tt.push(TtEntry { key: 0, depth: 0, value: 0, flag: 0, mv: (0, 0) });
        i += 1;
    }
    tt
}

/// Slot of a key in the table: its low 18 bits.
fn tt_slot(key: u64) -> (s: usize)
    ensures
        s < TT_SIZE,
        s == key % (TT_SIZE as u64),
{
    let s = key & TT_MASK;
    assert(key & 262143u64 <= 262143u64) by (bit_vector);
    assert(key & 262143u64 == key % 262144u64) by (bit_vector);
    s as usize
}

// ── Search budget ───────────────────────────────────────────────────────────

struct Budget {
    nodes: u64,
    cap: u64,
    /// The clock's reading when the slice began (read only under a time limit).
    start_ms: u64,
    time_ms: u128,
    aborted: bool,
    /// Keys of earlier game positions (since the last capture): a line returning to one is a draw.
    rep_seed: Vec<u64>,
    /// Keys on the current search line.
    path: Vec<u64>,
    /// A draw is worth -contempt to the side to move.
    contempt: i32,
    /// Two killer quiet moves per ply.
    killers: Vec<[(u8, u8); 2]>,
    /// Cutoff history per (from * 63 + to).
    history: Vec<i32>,
    /// Late-move reductions, killer/history ordering and null-window search.
    ext: bool,
}

spec fn budget_ok(b: Budget) -> bool {
    &&& b.killers@.len() == KILLER_SLOTS
    &&& b.history@.len() == HISTORY_LEN
    &&& b.contempt > i32::MIN
    &&& b.aborted || b.nodes <= b.cap
    &&& b.cap <= u64::MAX - NODE_SLACK
    &&& b.aborted && b.time_ms == 0 ==> b.nodes > b.cap
}

/// What a search step leaves as it was, and that the node count and the abort flag only grow.
spec fn budget_kept(a: Budget, b: Budget) -> bool {
    &&& a.cap == b.cap
    &&& a.time_ms == b.time_ms
    &&& a.rep_seed@ == b.rep_seed@
    &&& a.contempt == b.contempt
    &&& a.ext == b.ext
    &&& a.path@ == b.path@
    &&& a.killers@.len() == b.killers@.len()
    &&& a.history@.len() == b.history@.len()
    &&& a.aborted ==> b.aborted
    &&& a.nodes <= b.nodes
}

/// The clock cannot end a search step that visits at most `extra` more nodes: no time limit is
/// set, or the node count stays below the first multiple of 1024, where the clock is first read.
pub open spec fn clock_off(time_ms: u128, nodes: int, extra: int) -> bool {
    time_ms == 0 || nodes + extra < 1024
}

/// The next node counted cannot end the search: it is not over yet, the node fits the budget,
/// and the clock cannot be read at it.
spec fn first_node_free(b: Budget) -> bool {
    !b.aborted && b.nodes + 1 <= b.cap && clock_off(b.time_ms, b.nodes as int, 1)
}

/// Nodes that a search `d` plies deep may visit on a board of `n` pieces: its own node and a
/// capture search, then at most eight moves per piece, each searched at most three times one ply
/// less deep (a reduced probe, a re-search and a full-window search).
pub open spec fn nbound(d: int, n: nat) -> nat
    decreases (if d > 0 { d } else { 0 }),
{
    if d <= 0 {
        1 + qbound(n)
    } else {
        1 + qbound(n) + 24 * n * nbound(d - 1, n)
    }
}

/// The search bound grows with the number of pieces.
proof fn lemma_nbound_pieces(d: int, m: nat, n: nat)
    requires
        m <= n,
    ensures
        1 <= nbound(d, m) <= nbound(d, n),
    decreases (if d > 0 { d } else { 0 }),
{
    lemma_qbound_mono(m, n);
    if d > 0 {
        lemma_nbound_pieces(d - 1, m, n);
        assert(24 * m * nbound(d - 1, m) <= 24 * n * nbound(d - 1, n)) by (nonlinear_arith)
            requires
                m <= n,
                1 <= nbound(d - 1, m) <= nbound(d - 1, n),
        ;
    }
}

/// With no pieces, a search visits its node and a capture search at any depth.
proof fn lemma_nbound_empty(d: int, n: nat)
    requires
        n == 0,
    ensures
        nbound(d, n) == 1 + qbound(n),
{
    if d > 0 {
        assert(24 * n * nbound(d - 1, n) == 0) by (nonlinear_arith)
            requires
                n == 0,
        ;
    }
}

/// The search bound grows with depth.
proof fn lemma_nbound_depth(d1: int, d2: int, n: nat)
    requires
        d1 <= d2,
    ensures
        1 <= nbound(d1, n) <= nbound(d2, n),
    decreases d2 - d1,
{
    lemma_qbound_mono(0, n);
    if d1 < d2 {
        lemma_nbound_depth(d1, d2 - 1, n);
        if d2 > 0 {
            if n >= 1 {
                assert(24 * n * nbound(d2 - 1, n) >= nbound(d2 - 1, n)) by (nonlinear_arith)
                    requires
                        n >= 1,
                        nbound(d2 - 1, n) >= 1,
                ;
            } else {
                lemma_nbound_empty(d2, n);
                lemma_nbound_empty(d2 - 1, n);
            }
        }
    }
}

/// Nodes that the first `d` iterations of a search of `p` may visit: per iteration and legal
/// move, a search one ply less deep than the iteration.
pub open spec fn search_nodes(p: Parsed, d: int) -> int {
    d * movegen::legal_moves_spec(p).len() * nbound(d - 1, piece_count(p.squares@, 63))
}

/// A budget of `node_budget` nodes under time limit `time_ms` completes the first `d`
/// iterations of a search of `p`: `p` has a legal move, the budget covers `search_nodes(p, d)`,
/// and the clock cannot end those iterations.
pub open spec fn depth_covered(p: Parsed, node_budget: u64, time_ms: u128, d: int) -> bool {
    &&& 1 <= d <= MAX_DEPTH
    &&& movegen::legal_moves_spec(p).len() > 0
    &&& search_nodes(p, d) <= node_budget
    &&& clock_off(time_ms, 0, search_nodes(p, d))
}

/// The nodes of `k - 1` iterations and one more stay within those of `k`, and within `d`'s.
proof fn lemma_search_nodes_step(l: int, k: int, d: int, n: nat)
    requires
        1 <= k <= d,
        l >= 1,
    ensures
        (k - 1) * l * nbound(k - 2, n) + l * nbound(k - 1, n) <= k * l * nbound(k - 1, n),
        k * l * nbound(k - 1, n) <= d * l * nbound(d - 1, n),
{
    lemma_nbound_depth(k - 2, k - 1, n);
    lemma_nbound_depth(k - 1, d - 1, n);
    assert((k - 1) * l * nbound(k - 2, n) <= (k - 1) * l * nbound(k - 1, n)) by (nonlinear_arith)
        requires
            k >= 1,
            l >= 1,
            nbound(k - 2, n) <= nbound(k - 1, n),
    ;
    assert((k - 1) * l * nbound(k - 1, n) + l * nbound(k - 1, n) == k * l * nbound(k - 1, n)) by (nonlinear_arith);
    assert(k * l * nbound(k - 1, n) <= d * l * nbound(d - 1, n)) by (nonlinear_arith)
        requires
            1 <= k <= d,
            l >= 1,
            1 <= nbound(k - 1, n) <= nbound(d - 1, n),
    ;
}

/// Nodes that the first iteration of a search of `p` may visit: per legal move its own node
/// and a capture search.
pub open spec fn depth_one_nodes(p: Parsed) -> int {
    (movegen::legal_moves_spec(p).len() * (1 + qbound(piece_count(p.squares@, 63)))) as int
}

/// A slice of `node_budget` nodes under time limit `time_ms` completes the first iteration of a
/// search of `p`: `p` has a legal move, the budget covers `depth_one_nodes(p)`, and the clock
/// cannot end the iteration.
pub open spec fn depth_one_covered(p: Parsed, node_budget: u64, time_ms: u128) -> bool {
    &&& movegen::legal_moves_spec(p).len() > 0
    &&& depth_one_nodes(p) <= node_budget
    &&& clock_off(time_ms, 0, depth_one_nodes(p))
}

impl Budget {
    /// Counts a node; the search aborts past the node budget or the time budget.
    fn tick<K: Clock>(&mut self, clock: &K) -> (r: bool)
        requires
            budget_ok(*old(self)),
            old(self).nodes < old(self).cap + NODE_SLACK,
        ensures
            budget_ok(*final(self)),
            budget_kept(*old(self), *final(self)),
            final(self).nodes == old(self).nodes + 1,
            r == final(self).aborted,
            old(self).aborted ==> final(self).aborted,
            final(self).aborted ==> old(self).aborted || final(self).nodes > old(self).cap || (old(self).time_ms > 0
                && final(self).nodes % 1024 == 0),
    {
        self.nodes = self.nodes + 1;
        if self.time_ms > 0 && self.nodes % 1024 == 0 {
            let now = clock.now_ms();
            let elapsed = if now >= self.start_ms {
                now - self.start_ms
            } else {
                0
            };
            if elapsed as u128 >= self.time_ms {
                self.aborted = true;
            }
        }
        if self.nodes > self.cap {
            self.aborted = true;
        }
        self.aborted
    }
}

fn vec_contains(v: &Vec<u64>, k: u64) -> (r: bool)
    ensures
        r == v@.contains(k),
{
    let mut i: usize = 0;
    while i < v.len()
        invariant
            0 <= i <= v@.len(),
            forall|j: int| 0 <= j < i ==> v@[j] != k,
        decreases v@.len() - i,
    {
        if v[i] == k {
            assert(v@[i as int] == k);
            return true;
        }
        i += 1;
    }
    false
}

// ── Move ordering ───────────────────────────────────────────────────────────

/// `a` sorts no later than `b`: higher score first, then the smaller move.
pub open spec fn sorts_before(a: (i32, (u8, u8)), b: (i32, (u8, u8))) -> bool {
    a.0 > b.0 || (a.0 == b.0 && (a.1.0 < b.1.0 || (a.1.0 == b.1.0 && a.1.1 <= b.1.1)))
}

pub open spec fn sorted_desc(s: Seq<(i32, (u8, u8))>) -> bool {
    forall|i: int, j: int| 0 <= i < j < s.len() ==> sorts_before(#[trigger] s[i], #[trigger] s[j])
}

/// Sorts scored moves by score (highest first), ties by move (smallest first).
pub(crate) fn sort_scored(items: Vec<(i32, (u8, u8))>) -> (out: Vec<(i32, (u8, u8))>)
    ensures
        out@.to_multiset() == items@.to_multiset(),
        sorted_desc(out@),
{
    broadcast use vstd::seq_lib::group_to_multiset_ensures;
    let mut out: Vec<(i32, (u8, u8))> = Vec::new();
    let mut i: usize = 0;
    assert(items@.subrange(0, 0) == Seq::<(i32, (u8, u8))>::empty());
    while i < items.len()
        invariant
            0 <= i <= items@.len(),
            out@.to_multiset() == items@.subrange(0, i as int).to_multiset(),
            sorted_desc(out@),
        decreases items@.len() - i,
    {
        let x = items[i];
        let mut pos: usize = 0;
        while pos < out.len() && sorts_before_exec(out[pos], x)
            invariant
                0 <= pos <= out@.len(),
                forall|j: int| 0 <= j < pos ==> sorts_before(#[trigger] out@[j], x),
            decreases out@.len() - pos,
        {
            pos += 1;
        }
        let ghost old_out = out@;
        out.insert(pos, x);
        proof {
            vstd::seq_lib::to_multiset_insert(old_out, pos as int, x);
            assert(items@.subrange(0, i + 1) == items@.subrange(0, i as int).push(x));
            vstd::seq_lib::to_multiset_build(items@.subrange(0, i as int), x);
            assert forall|a: int, b: int| 0 <= a < b < out@.len() implies sorts_before(
                #[trigger] out@[a],
                #[trigger] out@[b],
            ) by {
                if b < pos {
                    assert(out@[a] == old_out[a] && out@[b] == old_out[b]);
                } else if b == pos {
                    assert(out@[a] == old_out[a]);
                } else if a == pos {
                    assert(out@[b] == old_out[b - 1]);
                    if pos < old_out.len() {
                        assert(!sorts_before(old_out[pos as int], x));
                        assert(sorts_before(old_out[pos as int], old_out[b - 1]) || b - 1 == pos);
                    }
                } else if a < pos {
                    assert(out@[a] == old_out[a] && out@[b] == old_out[b - 1]);
                } else {
                    assert(out@[a] == old_out[a - 1] && out@[b] == old_out[b - 1]);
                }
            }
        }
        i += 1;
    }
    assert(items@.subrange(0, items@.len() as int) == items@);
    out
}

fn sorts_before_exec(a: (i32, (u8, u8)), b: (i32, (u8, u8))) -> (r: bool)
    ensures
        r == sorts_before(a, b),
{
    a.0 > b.0 || (a.0 == b.0 && (a.1.0 < b.1.0 || (a.1.0 == b.1.0 && a.1.1 <= b.1.1)))
}

/// The moves of scored moves, in order.
pub(crate) fn moves_of(s: &Vec<(i32, (u8, u8))>) -> (out: Vec<(u8, u8)>)
    ensures
        out@.len() == s@.len(),
        forall|i: int| 0 <= i < s@.len() ==> #[trigger] out@[i] == s@[i].1,
{
    let mut out: Vec<(u8, u8)> = Vec::new();
    let mut i: usize = 0;
    while i < s.len()
        invariant
            0 <= i <= s@.len(),
            out@.len() == i,
            forall|j: int| 0 <= j < i ==> #[trigger] out@[j] == s@[j].1,
        decreases s@.len() - i,
    {
        out.push(s[i].1);
        i += 1;
    }
    out
}

/// The moves of `sorted` are those of `moves`, as often.
pub(crate) proof fn lemma_sorted_moves(moves: Seq<(u8, u8)>, scored: Seq<(i32, (u8, u8))>, sorted: Seq<(i32, (u8, u8))>, out: Seq<(u8, u8)>)
    requires
        scored.len() == moves.len(),
        forall|i: int| 0 <= i < moves.len() ==> #[trigger] scored[i].1 == moves[i],
        sorted.to_multiset() == scored.to_multiset(),
        out.len() == sorted.len(),
        forall|i: int| 0 <= i < sorted.len() ==> #[trigger] out[i] == sorted[i].1,
    ensures
        out.len() == moves.len(),
        forall|m: (u8, u8)| out.contains(m) <==> moves.contains(m),
{
    broadcast use vstd::seq_lib::group_to_multiset_ensures;
    assert(sorted.len() == scored.len()) by {
        vstd::seq_lib::to_multiset_len(sorted);
        vstd::seq_lib::to_multiset_len(scored);
    }
    assert forall|m: (u8, u8)| out.contains(m) <==> moves.contains(m) by {
        if out.contains(m) {
            let i = choose|i: int| 0 <= i < out.len() && out[i] == m;
            assert(sorted.contains(sorted[i]));
            vstd::seq_lib::to_multiset_contains(sorted, sorted[i]);
            vstd::seq_lib::to_multiset_contains(scored, sorted[i]);
            assert(scored.contains(sorted[i]));
            let j = choose|j: int| 0 <= j < scored.len() && scored[j] == sorted[i];
            assert(moves[j] == m);
        }
        if moves.contains(m) {
            let j = choose|j: int| 0 <= j < moves.len() && moves[j] == m;
            assert(scored.contains(scored[j]));
            vstd::seq_lib::to_multiset_contains(sorted, scored[j]);
            vstd::seq_lib::to_multiset_contains(scored, scored[j]);
            assert(sorted.contains(scored[j]));
            let i = choose|i: int| 0 <= i < sorted.len() && sorted[i] == scored[j];
            assert(out[i] == m);
        }
    }
}

fn mv_eq(a: (u8, u8), b: (u8, u8)) -> (r: bool)
    ensures
        r == (a == b),
{
    a.0 == b.0 && a.1 == b.1
}

fn is_tt_move(tt_mv: Option<(u8, u8)>, m: (u8, u8)) -> (r: bool)
    ensures
        r == (tt_mv == Some(m)),
{
    match tt_mv {
        Some(t) => mv_eq(t, m),
        None => false,
    }
}

/// Ordering score of a move for the plain search: the table move first, then den entries,
/// then captures by the victim's value, then the rest.
pub open spec fn order_value(p: Parsed, m: (u8, u8), tt_mv: Option<(u8, u8)>) -> int {
    if tt_mv == Some(m) {
        1000000
    } else if m.1 == opp_den(p.turn) {
        90000
    } else if p.squares[m.1 as int] != 0 {
        100 + eval::role_value(role_of(p.squares[m.1 as int]))
    } else {
        0
    }
}

fn order_score(p: &Parsed, m: (u8, u8), tt_mv: Option<(u8, u8)>) -> (r: i32)
    requires
        m.1 < 63,
    ensures
        r == order_value(*p, m, tt_mv),
{
    if is_tt_move(tt_mv, m) {
        return 1000000;
    }
    if m.1 == opp_den(p.turn) {
        return 90000;
    }
    let victim = p.squares[m.1 as usize];
    if victim != 0 {
        return 100 + piece_value(role_of(victim));
    }
    0
}

/// The legal moves of `p`, best-first for the plain search: the table move, den entries, then
/// captures by victim value; ties by move.
fn ordered_moves(p: &Parsed, tt_mv: Option<(u8, u8)>) -> (out: Vec<(u8, u8)>)
    ensures
        out@.len() == movegen::legal_moves_spec(*p).len(),
        forall|m: (u8, u8)| out@.contains(m) <==> movegen::legal_moves_spec(*p).contains(m),
{
    let moves = legal_moves(p);
    proof {
        movegen::lemma_legal_moves_ok(*p);
    }
    let mut scored: Vec<(i32, (u8, u8))> = Vec::new();
    let mut i: usize = 0;
    while i < moves.len()
        invariant
            0 <= i <= moves@.len(),
            moves@ == movegen::legal_moves_spec(*p),
            forall|j: int| 0 <= j < moves@.len() ==> #[trigger] movegen::move_ok(*p, moves@[j]),
            scored@.len() == i,
            forall|j: int| 0 <= j < i ==> #[trigger] scored@[j].1 == moves@[j],
        decreases moves@.len() - i,
    {
        let m = moves[i];
        assert(movegen::move_ok(*p, moves@[i as int]));
        scored.push((order_score(p, m, tt_mv), m));
        i += 1;
    }
    let ghost sc = scored@;
    let sorted = sort_scored(scored);
    let out = moves_of(&sorted);
    proof {
        lemma_sorted_moves(moves@, sc, sorted@, out@);
    }
    out
}

/// Ordering score of a move for the main search: the table move, den entries, captures (most
/// valuable victim, then least valuable attacker), the ply's killer moves, then quiet moves by
/// their history count (capped below the killers).
pub open spec fn order_value_ext(p: Parsed, m: (u8, u8), tt_mv: Option<(u8, u8)>, killers: [(u8, u8); 2], history: Seq<i32>) -> int {
    if tt_mv == Some(m) {
        2000000
    } else if m.1 == opp_den(p.turn) {
        1900000
    } else if p.squares[m.1 as int] != 0 {
        1000000 + 100 * eval::role_value(role_of(p.squares[m.1 as int])) - eval::role_value(role_of(p.squares[m.0 as int]))
    } else if m == killers[0] || m == killers[1] {
        900000
    } else {
        let h = history[m.0 * 63 + m.1];
        if h < 800000 {
            h as int
        } else {
            800000
        }
    }
}

fn order_score_ext(p: &Parsed, m: (u8, u8), tt_mv: Option<(u8, u8)>, killers: &[(u8, u8); 2], history: &Vec<i32>) -> (r: i32)
    requires
        m.0 < 63,
        m.1 < 63,
        history@.len() == HISTORY_LEN,
    ensures
        r == order_value_ext(*p, m, tt_mv, *killers, history@),
{
    if is_tt_move(tt_mv, m) {
        return 2000000;
    }
    if m.1 == opp_den(p.turn) {
        return 1900000;
    }
    let victim = p.squares[m.1 as usize];
    if victim != 0 {
        return 1000000 + 100 * piece_value(role_of(victim)) - piece_value(role_of(p.squares[m.0 as usize]));
    }
    if mv_eq(m, killers[0]) || mv_eq(m, killers[1]) {
        return 900000;
    }
    let h = history[m.0 as usize * 63 + m.1 as usize];
    if h < 800000 {
        h
    } else {
        800000
    }
}

/// The legal moves of `p`, best-first for the main search: the table move, den entries,
/// captures (most valuable victim, least valuable attacker), killers, then quiet moves by
/// history; ties by move.
fn ordered_moves_ext(p: &Parsed, tt_mv: Option<(u8, u8)>, killers: &[(u8, u8); 2], history: &Vec<i32>) -> (out: Vec<(u8, u8)>)
    requires
        history@.len() == HISTORY_LEN,
    ensures
        out@.len() == movegen::legal_moves_spec(*p).len(),
        forall|m: (u8, u8)| out@.contains(m) <==> movegen::legal_moves_spec(*p).contains(m),
{
    let moves = legal_moves(p);
    proof {
        movegen::lemma_legal_moves_ok(*p);
    }
    let mut scored: Vec<(i32, (u8, u8))> = Vec::new();
    let mut i: usize = 0;
    while i < moves.len()
        invariant
            0 <= i <= moves@.len(),
            history@.len() == HISTORY_LEN,
            moves@ == movegen::legal_moves_spec(*p),
            forall|j: int| 0 <= j < moves@.len() ==> #[trigger] movegen::move_ok(*p, moves@[j]),
            scored@.len() == i,
            forall|j: int| 0 <= j < i ==> #[trigger] scored@[j].1 == moves@[j],
        decreases moves@.len() - i,
    {
        let m = moves[i];
        assert(movegen::move_ok(*p, moves@[i as int]));
        scored.push((order_score_ext(p, m, tt_mv, killers, history), m));
        i += 1;
    }
    let ghost sc = scored@;
    let sorted = sort_scored(scored);
    let out = moves_of(&sorted);
    proof {
        lemma_sorted_moves(moves@, sc, sorted@, out@);
    }
    out
}

// ── Leaf evaluation ─────────────────────────────────────────────────────────

/// A leaf evaluator that may be called on any position, stays within `LEAF_BOUND`, and is a
/// function of the position.
pub open spec fn leaf_ok<L: Fn(&Parsed) -> i32>(f: L) -> bool {
    &&& forall|q: &Parsed| #[trigger] f.requires((q,))
    &&& forall|q: &Parsed, v: i32| #[trigger] f.ensures((q,), v) ==> -LEAF_BOUND <= v <= LEAF_BOUND
    &&& forall|q: &Parsed, v: i32, w: i32| #[trigger] f.ensures((q,), v) && #[trigger] f.ensures((q,), w) ==> v == w
}

/// An optional leaf evaluator, if given, is `leaf_ok`.
pub open spec fn net_ok<L: Fn(&Parsed) -> i32>(net: Option<&L>) -> bool {
    net matches Some(f) ==> leaf_ok(*f)
}

/// An optional store, if given, has tables of the right size.
pub open spec fn tb_ok(tb: Option<&Store>) -> bool {
    tb matches Some(st) ==> tablebase::store_sized(st@)
}

/// Leaf value: the exact table value when the store has the position's material set, else the
/// given evaluator, else the handcrafted evaluation.
/// What the store says of a position, if a store is given.
pub open spec fn tb_leaf(tb: Option<&Store>, p: Parsed) -> Option<u8> {
    match tb {
        Some(st) => tablebase::probe_spec(st@, p),
        None => None,
    }
}

/// Leaf score of a table value: `TB_SCORE` for a win, its negation for a loss, 0 for a draw.
pub open spec fn tb_leaf_score(w: u8) -> int {
    if w == TB_WIN {
        TB_SCORE as int
    } else if w == TB_LOSS {
        -TB_SCORE
    } else {
        0
    }
}

fn eval<L: Fn(&Parsed) -> i32>(p: &Parsed, net: Option<&L>, tb: Option<&Store>) -> (v: i32)
    requires
        board::valid_position(*p),
        net_ok(net),
        tb_ok(tb),
    ensures
        -LEAF_BOUND <= v <= LEAF_BOUND,
        tb_leaf(tb, *p) matches Some(w) ==> v == tb_leaf_score(w),
        tb_leaf(tb, *p) is None ==> match net {
            Some(f) => f.ensures((p,), v),
            None => v == eval::eval_sum(*p, 63),
        },
{
    match tb {
        Some(store) => {
            match probe_store(store, p) {
                Some(wdl) => {
                    return if wdl == TB_WIN {
                        TB_SCORE
                    } else if wdl == TB_LOSS {
                        -TB_SCORE
                    } else {
                        0
                    };
                },
                None => {},
            }
        },
        None => {},
    }
    match net {
        Some(f) => f(p),
        None => eval_hand(p),
    }
}

// ── Material count ──────────────────────────────────────────────────────────

/// Number of pieces on the first `k` squares.
pub open spec fn piece_count(sq: Seq<u8>, k: int) -> nat
    decreases k,
{
    if k <= 0 {
        0
    } else {
        piece_count(sq, k - 1) + if sq[k - 1] != 0 {
            1nat
        } else {
            0nat
        }
    }
}

proof fn lemma_piece_count_update(sq: Seq<u8>, i: int, v: u8, k: int)
    requires
        0 <= i < sq.len(),
        0 <= k <= sq.len(),
    ensures
        piece_count(sq.update(i, v), k) + (if i < k && sq[i] != 0 {
            1int
        } else {
            0int
        }) == piece_count(sq, k) + (if i < k && v != 0 {
            1int
        } else {
            0int
        }),
    decreases k,
{
    if k > 0 {
        lemma_piece_count_update(sq, i, v, k - 1);
    }
}

proof fn lemma_piece_count_bound(sq: Seq<u8>, k: int)
    requires
        0 <= k,
    ensures
        piece_count(sq, k) <= k,
    decreases k,
{
    if k > 0 {
        lemma_piece_count_bound(sq, k - 1);
    }
}

/// A piece has at most four steps.
proof fn lemma_steps_len(p: Parsed, from: int, d: int)
    requires
        0 <= d,
    ensures
        movegen::steps_upto(p, from, d).len() <= d,
    decreases d,
{
    if d > 0 {
        lemma_steps_len(p, from, d - 1);
    }
}

/// A piece has at most one river jump per direction.
proof fn lemma_jumps_len(p: Parsed, from: int, lo: int, d: int)
    requires
        lo <= d,
    ensures
        movegen::jumps_range(p, from, lo, d).len() <= d - lo,
    decreases d - lo,
{
    if d > lo {
        lemma_jumps_len(p, from, lo, d - 1);
    }
}

/// The side to move has at most eight moves per piece on the first `k` squares.
proof fn lemma_legal_len(p: Parsed, k: int)
    requires
        0 <= k <= 63,
        p.turn <= 1,
    ensures
        movegen::legal_upto(p, k).len() <= 8 * piece_count(p.squares@, k),
    decreases k,
{
    if k > 0 {
        lemma_legal_len(p, k - 1);
        if board::color_of(p.squares[k - 1]) == p.turn {
            lemma_steps_len(p, k - 1, 4);
            lemma_jumps_len(p, k - 1, 0, 4);
            lemma_jumps_len(p, k - 1, 2, 4);
            assert(p.squares@[k - 1] != 0);
        }
    }
}

/// Nodes that a capture search may visit on a board of `n` pieces: its own node, then at most
/// eight moves per piece, each a capture that leaves `n - 1` pieces.
pub open spec fn qbound(n: nat) -> nat
    decreases n,
{
    if n == 0 {
        1
    } else {
        1 + 8 * n * qbound((n - 1) as nat)
    }
}

/// The bound grows with the number of pieces.
proof fn lemma_qbound_mono(m: nat, n: nat)
    requires
        m <= n,
    ensures
        1 <= qbound(m) <= qbound(n),
    decreases n,
{
    if m < n {
        lemma_qbound_mono(m, (n - 1) as nat);
        assert(8 * n * qbound((n - 1) as nat) >= qbound((n - 1) as nat)) by (nonlinear_arith)
            requires
                n >= 1,
                qbound((n - 1) as nat) >= 1,
        ;
    } else if n > 0 {
        lemma_qbound_mono((n - 1) as nat, (n - 1) as nat);
    }
}

/// A capture leaves one piece fewer.
proof fn lemma_capture_count(p: Parsed, m: (u8, u8), c: Parsed)
    requires
        m.0 < 63,
        m.1 < 63,
        m.0 != m.1,
        p.squares[m.0 as int] != 0,
        p.squares[m.1 as int] != 0,
        c.squares@ == board::moved_squares(p.squares@, m.0 as int, m.1 as int),
    ensures
        piece_count(c.squares@, 63) + 1 == piece_count(p.squares@, 63),
{
    let s = p.squares@;
    let s1 = s.update(m.0 as int, 0);
    lemma_piece_count_update(s, m.0 as int, 0, 63);
    lemma_piece_count_update(s1, m.1 as int, s[m.0 as int], 63);
}

/// A legal move leaves its source square and lands elsewhere.
pub(crate) proof fn lemma_legal_move_facts(p: Parsed, m: (u8, u8))
    requires
        board::valid_position(p),
        movegen::legal_moves_spec(p).contains(m),
    ensures
        m.0 < 63,
        m.1 < 63,
        m.0 != m.1,
        p.squares[m.0 as int] != 0,
        board::can_make_move(p, m) || (p.squares[m.1 as int] == 0 && p.progress == u32::MAX)
            || (p.turn == 1 && p.movenum == u32::MAX),
{
    movegen::lemma_legal_moves_ok(p);
    let i = choose|i: int| 0 <= i < movegen::legal_moves_spec(p).len() && movegen::legal_moves_spec(p)[i] == m;
    assert(movegen::move_ok(p, movegen::legal_moves_spec(p)[i]));
}

// ── Search ──────────────────────────────────────────────────────────────────

/// Recursion height of the main search at `depth`: the remaining depth plus room for the
/// capture search below it.
pub open spec fn height(depth: int) -> int {
    (if depth > 0 {
        depth
    } else {
        0
    }) + 64
}

proof fn lemma_kept_trans(a: Budget, b: Budget, c: Budget)
    requires
        budget_kept(a, b),
        budget_kept(b, c),
    ensures
        budget_kept(a, c),
{
}

proof fn lemma_piece_count_pos(sq: Seq<u8>, i: int, k: int)
    requires
        0 <= i < k,
        sq[i] != 0,
    ensures
        piece_count(sq, k) >= 1,
    decreases k,
{
    if k - 1 > i {
        lemma_piece_count_pos(sq, i, k - 1);
    }
}

/// Is `m` a tactical move: a capture or a den entry?
fn is_tactical(p: &Parsed, m: (u8, u8)) -> (r: bool)
    requires
        m.1 < 63,
    ensures
        r == (p.squares[m.1 as int] != 0 || m.1 == opp_den(p.turn)),
{
    p.squares[m.1 as usize] != 0 || m.1 == opp_den(p.turn)
}

/// `v` is a leaf value of `p`: the store's score when it settles `p`, else a value the given
/// evaluator may return, else the handcrafted evaluation.
pub open spec fn leaf_is<L: Fn(&Parsed) -> i32>(p: &Parsed, net: Option<&L>, tb: Option<&Store>, v: i32) -> bool {
    match tb_leaf(tb, *p) {
        Some(w) => v == tb_leaf_score(w),
        None => match net {
            Some(f) => f.ensures((p,), v),
            None => v == eval::eval_sum(*p, 63),
        },
    }
}


/// The position that `make_move` makes from `p` with `m`.
pub open spec fn child_of(p: Parsed, m: (u8, u8)) -> Parsed {
    Parsed {
        squares: choose|a: [u8; 63]| #[trigger] a@ == board::moved_squares(p.squares@, m.0 as int, m.1 as int),
        turn: (1 - p.turn) as u8,
        progress: (if p.squares[m.1 as int] != 0 {
            0
        } else {
            p.progress + 1
        }) as u32,
        movenum: (if p.turn == 1 {
            p.movenum + 1
        } else {
            p.movenum as int
        }) as u32,
    }
}

/// What `make_move` returns is `child_of`.
proof fn lemma_child_of(p: Parsed, m: (u8, u8), c: Parsed)
    requires
        c.squares@ == board::moved_squares(p.squares@, m.0 as int, m.1 as int),
        c.turn == 1 - p.turn,
        c.progress == (if p.squares[m.1 as int] != 0 {
            0
        } else {
            p.progress + 1
        }),
        c.movenum == (if p.turn == 1 {
            p.movenum + 1
        } else {
            p.movenum as int
        }),
    ensures
        c == child_of(p, m),
{
    broadcast use vstd::array::group_array_axioms;
    let a = choose|a: [u8; 63]| #[trigger] a@ == board::moved_squares(p.squares@, m.0 as int, m.1 as int);
    assert(c.squares@ == board::moved_squares(p.squares@, m.0 as int, m.1 as int));
    assert(a@ == c.squares@);
    assert(a =~= c.squares);
}

/// A move wins at once exactly when it enters the enemy den or leaves the opponent no piece.
proof fn lemma_wins_child(p: Parsed, m: (u8, u8), c: Parsed)
    requires
        p.turn <= 1,
        c.squares@ == board::moved_squares(p.squares@, m.0 as int, m.1 as int),
        c.turn == 1 - p.turn,
    ensures
        wins_at_once(p, m) == (m.1 == opp_den(p.turn) || !status::has_pieces(c, c.turn)),
{
    broadcast use vstd::array::group_array_axioms;
    let after = board::moved_squares(p.squares@, m.0 as int, m.1 as int);
    if status::has_pieces(c, c.turn) {
        let i = choose|i: int| 0 <= i < 63 && board::color_of(#[trigger] c.squares[i]) == c.turn;
        assert(c.squares[i] == after[i]);
        assert(board::color_of(after[i]) == 1 - p.turn);
    }
    if exists|i: int| 0 <= i < 63 && board::color_of(#[trigger] after[i]) == 1 - p.turn {
        let i = choose|i: int| 0 <= i < 63 && board::color_of(#[trigger] after[i]) == 1 - p.turn;
        assert(c.squares[i] == after[i]);
        assert(board::color_of(c.squares[i]) == c.turn);
    }
}

/// `lf` gives every position the leaf value that the evaluation reads for it.
pub open spec fn leaf_agrees<L: Fn(&Parsed) -> i32>(lf: spec_fn(Parsed) -> int, net: Option<&L>, tb: Option<&Store>) -> bool {
    forall|q: Parsed, v: i32| #[trigger] leaf_is(&q, net, tb, v) ==> lf(q) == v
}

/// The leaf values of an evaluation: for each position, the value `leaf_is` fixes.
pub open spec fn leaf_fn<L: Fn(&Parsed) -> i32>(net: Option<&L>, tb: Option<&Store>) -> spec_fn(Parsed) -> int {
    |q: Parsed| (choose|v: i32| leaf_is(&q, net, tb, v)) as int
}

/// An evaluation that is a function of the position agrees with its leaf values.
proof fn lemma_leaf_fn<L: Fn(&Parsed) -> i32>(net: Option<&L>, tb: Option<&Store>)
    requires
        net_ok(net),
    ensures
        leaf_agrees(leaf_fn(net, tb), net, tb),
{
    assert forall|q: Parsed, v: i32| #[trigger] leaf_is(&q, net, tb, v) implies leaf_fn(net, tb)(q) == v by {
        let w = choose|w: i32| leaf_is(&q, net, tb, w);
        assert(leaf_is(&q, net, tb, w));
    }
}

/// The handcrafted evaluation, as leaf values.
pub open spec fn hand_fn() -> spec_fn(Parsed) -> int {
    |q: Parsed| eval::eval_sum(q, 63) as int
}

/// The handcrafted leaf evaluator agrees with the handcrafted evaluation.
proof fn lemma_hand_agrees()
    ensures
        leaf_agrees(hand_fn(), Some(&hand_leaf), None),
{
    assert forall|q: Parsed, v: i32| #[trigger] leaf_is(&q, Some(&hand_leaf), None, v) implies hand_fn()(q) == v by {
        assert(tb_leaf(None, q) is None);
    }
}

/// Is `m` a capture or a den entry in `p`?
pub open spec fn tactical(p: Parsed, m: (u8, u8)) -> bool {
    p.squares[m.1 as int] != 0 || m.1 == opp_den(p.turn)
}

/// What the tactical move `m` is worth to the side to move in the capture search of `p` at
/// `ply`: a win for one that wins at once, a draw for one that runs the no-capture clock out,
/// else the negated capture-search value of the position it makes.
pub open spec fn capture_move_value(p: Parsed, lf: spec_fn(Parsed) -> int, ply: int, m: (u8, u8)) -> int
    decreases piece_count(p.squares@, 63), 0int, 0int,
{
    let c = child_of(p, m);
    if wins_at_once(p, m) {
        WIN - ply
    } else if c.progress >= PROGRESS_LIMIT {
        0
    } else if piece_count(c.squares@, 63) < piece_count(p.squares@, 63) {
        -capture_value(c, lf, ply + 1)
    } else {
        0
    }
}

/// The greatest of the leaf value of `p` and the values of its tactical moves among the first
/// `k` legal moves.
pub open spec fn capture_max(p: Parsed, lf: spec_fn(Parsed) -> int, ply: int, k: int) -> int
    decreases piece_count(p.squares@, 63), 1int, k,
{
    if k <= 0 {
        lf(p)
    } else {
        let before = capture_max(p, lf, ply, k - 1);
        let m = movegen::legal_moves_spec(p)[k - 1];
        if tactical(p, m) {
            let v = capture_move_value(p, lf, ply, m);
            if v > before {
                v
            } else {
                before
            }
        } else {
            before
        }
    }
}

/// Value of the capture search of `p` at `ply` (side to move's view): the greater of the leaf
/// value (standing pat) and the best tactical move, each capture valued by the capture search of
/// the position it makes.
pub open spec fn capture_value(p: Parsed, lf: spec_fn(Parsed) -> int, ply: int) -> int
    decreases piece_count(p.squares@, 63), 2int, 0int,
{
    capture_max(p, lf, ply, movegen::legal_moves_spec(p).len() as int)
}

/// `capture_max` is the leaf value or a tactical move's value, and at least each of them.
proof fn lemma_capture_max(p: Parsed, lf: spec_fn(Parsed) -> int, ply: int, k: int)
    requires
        0 <= k <= movegen::legal_moves_spec(p).len(),
    ensures
        capture_max(p, lf, ply, k) >= lf(p),
        forall|j: int| 0 <= j < k && tactical(p, movegen::legal_moves_spec(p)[j]) ==> capture_max(p, lf, ply, k)
            >= #[trigger] capture_move_value(p, lf, ply, movegen::legal_moves_spec(p)[j]),
        capture_max(p, lf, ply, k) == lf(p) || exists|j: int|
            0 <= j < k && tactical(p, movegen::legal_moves_spec(p)[j]) && capture_max(p, lf, ply, k)
                == #[trigger] capture_move_value(p, lf, ply, movegen::legal_moves_spec(p)[j]),
    decreases k,
{
    if k > 0 {
        lemma_capture_max(p, lf, ply, k - 1);
        let lm = movegen::legal_moves_spec(p);
        let before = capture_max(p, lf, ply, k - 1);
        if tactical(p, lm[k - 1]) && capture_move_value(p, lf, ply, lm[k - 1]) > before {
            assert(capture_max(p, lf, ply, k) == capture_move_value(p, lf, ply, lm[k - 1]));
        } else if before != lf(p) {
            let j = choose|j: int|
                0 <= j < k - 1 && tactical(p, lm[j]) && before == #[trigger] capture_move_value(p, lf, ply, lm[j]);
            assert(capture_max(p, lf, ply, k) == capture_move_value(p, lf, ply, lm[j]));
        }
    }
}

/// `r` is what an alpha-beta search in the window (`alpha`, `beta`) may answer for a position
/// of value `v`: `v` itself inside the window, a value between `v` and `alpha` below it, and a
/// value between `beta` and `v` above it.
pub open spec fn window_ok(v: int, alpha: int, beta: int, r: int) -> bool {
    &&& v <= alpha ==> v <= r <= alpha
    &&& alpha < v < beta ==> r == v
    &&& beta <= v ==> beta <= r <= v
}

/// `window_ok` read from the other side: a negated answer in the negated window.
proof fn lemma_window_neg(v: int, alpha: int, beta: int, r: int)
    requires
        window_ok(-v, -beta, -alpha, -r),
    ensures
        window_ok(v, alpha, beta, r),
{
}

/// A null-window answer that leaves the window (`alpha`, `beta`) is an answer in it.
proof fn lemma_window_null(v: int, alpha: int, beta: int, r: int)
    requires
        window_ok(v, alpha, alpha + 1, r),
        alpha < beta,
        r <= alpha || r >= beta,
    ensures
        window_ok(v, alpha, beta, r),
{
}

/// Value of a depth-0 search of `c` at `ply` on the search line `path`, with the earlier game
/// positions `seeds`, under keys `z`/`side` and contempt `contempt`: a draw worth `-contempt` when
/// its key repeats one on the line or among the seeds, a loss when it has no legal move, else its
/// capture-search value.
pub open spec fn quiet_search_value(
    c: Parsed,
    lf: spec_fn(Parsed) -> int,
    ply: int,
    path: Seq<u64>,
    seeds: Seq<u64>,
    contempt: int,
    z: Seq<u64>,
    side: u64,
) -> int {
    let k = zkey_spec(c.squares@, c.turn, z, side);
    if path.contains(k) || seeds.contains(k) {
        -contempt
    } else if movegen::legal_moves_spec(c).len() == 0 {
        -(WIN - ply)
    } else {
        capture_value(c, lf, ply)
    }
}

/// What move `m` is worth in a one-ply search of `p` at `ply` on the line `path` (which ends
/// with the key of `p`): a win for one that wins at once, a draw for one that runs the
/// no-capture clock out, else the negated depth-0 value of the position it makes.
pub open spec fn ply_move_value(
    p: Parsed,
    lf: spec_fn(Parsed) -> int,
    ply: int,
    path: Seq<u64>,
    seeds: Seq<u64>,
    contempt: int,
    z: Seq<u64>,
    side: u64,
    m: (u8, u8),
) -> int {
    let c = child_of(p, m);
    if wins_at_once(p, m) {
        WIN - ply
    } else if c.progress >= PROGRESS_LIMIT {
        0
    } else {
        -quiet_search_value(c, lf, ply + 1, path, seeds, contempt, z, side)
    }
}

/// The greatest `ply_move_value` among the first `k` legal moves of `p`.
pub open spec fn ply_max(
    p: Parsed,
    lf: spec_fn(Parsed) -> int,
    ply: int,
    path: Seq<u64>,
    seeds: Seq<u64>,
    contempt: int,
    z: Seq<u64>,
    side: u64,
    k: int,
) -> int
    decreases k,
{
    if k <= 0 {
        -INF as int
    } else {
        let before = ply_max(p, lf, ply, path, seeds, contempt, z, side, k - 1);
        let v = ply_move_value(p, lf, ply, path, seeds, contempt, z, side, movegen::legal_moves_spec(p)[k - 1]);
        if k == 1 || v > before {
            v
        } else {
            before
        }
    }
}

/// Value of a one-ply search of `p` at `ply` on the line `path` (ending with the key of `p`):
/// the best of its legal moves' `ply_move_value`.
pub open spec fn one_ply_value(
    p: Parsed,
    lf: spec_fn(Parsed) -> int,
    ply: int,
    path: Seq<u64>,
    seeds: Seq<u64>,
    contempt: int,
    z: Seq<u64>,
    side: u64,
) -> int {
    ply_max(p, lf, ply, path, seeds, contempt, z, side, movegen::legal_moves_spec(p).len() as int)
}

/// `ply_max` is at least each of its moves' values, and one of them when there is a move.
proof fn lemma_ply_max(
    p: Parsed,
    lf: spec_fn(Parsed) -> int,
    ply: int,
    path: Seq<u64>,
    seeds: Seq<u64>,
    contempt: int,
    z: Seq<u64>,
    side: u64,
    k: int,
)
    requires
        0 <= k <= movegen::legal_moves_spec(p).len(),
    ensures
        forall|j: int| 0 <= j < k ==> ply_max(p, lf, ply, path, seeds, contempt, z, side, k)
            >= #[trigger] ply_move_value(p, lf, ply, path, seeds, contempt, z, side, movegen::legal_moves_spec(p)[j]),
        k > 0 ==> exists|j: int| 0 <= j < k && ply_max(p, lf, ply, path, seeds, contempt, z, side, k)
            == #[trigger] ply_move_value(p, lf, ply, path, seeds, contempt, z, side, movegen::legal_moves_spec(p)[j]),
    decreases k,
{
    if k > 0 {
        lemma_ply_max(p, lf, ply, path, seeds, contempt, z, side, k - 1);
        let lm = movegen::legal_moves_spec(p);
        let before = ply_max(p, lf, ply, path, seeds, contempt, z, side, k - 1);
        let v = ply_move_value(p, lf, ply, path, seeds, contempt, z, side, lm[k - 1]);
        if k == 1 || v > before {
            assert(ply_max(p, lf, ply, path, seeds, contempt, z, side, k) == ply_move_value(p, lf, ply, path, seeds, contempt, z, side, lm[k - 1]));
        } else {
            let j = choose|j: int| 0 <= j < k - 1 && before == #[trigger] ply_move_value(p, lf, ply, path, seeds, contempt, z, side, lm[j]);
            assert(ply_max(p, lf, ply, path, seeds, contempt, z, side, k) == ply_move_value(p, lf, ply, path, seeds, contempt, z, side, lm[j]));
        }
    }
}

/// Value of a depth-1 search of `c` at `ply` on the line `path`: a draw worth `-contempt` on a
/// repetition, a loss with no legal move, else its one-ply value on the line extended by its key.
pub open spec fn ply_search_value(
    c: Parsed,
    lf: spec_fn(Parsed) -> int,
    ply: int,
    path: Seq<u64>,
    seeds: Seq<u64>,
    contempt: int,
    z: Seq<u64>,
    side: u64,
) -> int {
    let k = zkey_spec(c.squares@, c.turn, z, side);
    if path.contains(k) || seeds.contains(k) {
        -contempt
    } else if movegen::legal_moves_spec(c).len() == 0 {
        -(WIN - ply)
    } else {
        one_ply_value(c, lf, ply, path.push(k), seeds, contempt, z, side)
    }
}

/// What move `m` is worth in a two-ply search of `p` at `ply` on the line `path` (which ends with
/// the key of `p`): a win for one that wins at once, a draw for one that runs the no-capture
/// clock out, else the negated depth-1 value of the position it makes.
pub open spec fn two_ply_move_value(
    p: Parsed,
    lf: spec_fn(Parsed) -> int,
    ply: int,
    path: Seq<u64>,
    seeds: Seq<u64>,
    contempt: int,
    z: Seq<u64>,
    side: u64,
    m: (u8, u8),
) -> int {
    let c = child_of(p, m);
    if wins_at_once(p, m) {
        WIN - ply
    } else if c.progress >= PROGRESS_LIMIT {
        0
    } else {
        -ply_search_value(c, lf, ply + 1, path, seeds, contempt, z, side)
    }
}

/// The greatest `two_ply_move_value` among the first `k` legal moves of `p`.
pub open spec fn two_ply_max(
    p: Parsed,
    lf: spec_fn(Parsed) -> int,
    ply: int,
    path: Seq<u64>,
    seeds: Seq<u64>,
    contempt: int,
    z: Seq<u64>,
    side: u64,
    k: int,
) -> int
    decreases k,
{
    if k <= 0 {
        -INF as int
    } else {
        let before = two_ply_max(p, lf, ply, path, seeds, contempt, z, side, k - 1);
        let v = two_ply_move_value(p, lf, ply, path, seeds, contempt, z, side, movegen::legal_moves_spec(p)[k - 1]);
        if k == 1 || v > before {
            v
        } else {
            before
        }
    }
}

/// Value of a two-ply search of `p` at `ply` on the line `path` (ending with the key of `p`):
/// the best of its legal moves' `two_ply_move_value`.
pub open spec fn two_ply_value(
    p: Parsed,
    lf: spec_fn(Parsed) -> int,
    ply: int,
    path: Seq<u64>,
    seeds: Seq<u64>,
    contempt: int,
    z: Seq<u64>,
    side: u64,
) -> int {
    two_ply_max(p, lf, ply, path, seeds, contempt, z, side, movegen::legal_moves_spec(p).len() as int)
}

/// `two_ply_max` is at least each of its moves' values, and one of them when there is a move.
proof fn lemma_two_ply_max(
    p: Parsed,
    lf: spec_fn(Parsed) -> int,
    ply: int,
    path: Seq<u64>,
    seeds: Seq<u64>,
    contempt: int,
    z: Seq<u64>,
    side: u64,
    k: int,
)
    requires
        0 <= k <= movegen::legal_moves_spec(p).len(),
    ensures
        forall|j: int| 0 <= j < k ==> two_ply_max(p, lf, ply, path, seeds, contempt, z, side, k)
            >= #[trigger] two_ply_move_value(p, lf, ply, path, seeds, contempt, z, side, movegen::legal_moves_spec(p)[j]),
        k > 0 ==> exists|j: int| 0 <= j < k && two_ply_max(p, lf, ply, path, seeds, contempt, z, side, k)
            == #[trigger] two_ply_move_value(p, lf, ply, path, seeds, contempt, z, side, movegen::legal_moves_spec(p)[j]),
    decreases k,
{
    if k > 0 {
        lemma_two_ply_max(p, lf, ply, path, seeds, contempt, z, side, k - 1);
        let lm = movegen::legal_moves_spec(p);
        let before = two_ply_max(p, lf, ply, path, seeds, contempt, z, side, k - 1);
        let v = two_ply_move_value(p, lf, ply, path, seeds, contempt, z, side, lm[k - 1]);
        if k == 1 || v > before {
            assert(two_ply_max(p, lf, ply, path, seeds, contempt, z, side, k) == two_ply_move_value(p, lf, ply, path, seeds, contempt, z, side, lm[k - 1]));
        } else {
            let j = choose|j: int| 0 <= j < k - 1 && before == #[trigger] two_ply_move_value(p, lf, ply, path, seeds, contempt, z, side, lm[j]);
            assert(two_ply_max(p, lf, ply, path, seeds, contempt, z, side, k) == two_ply_move_value(p, lf, ply, path, seeds, contempt, z, side, lm[j]));
        }
    }
}

/// Key of a position under keys `z`/`side`.
pub open spec fn key_of(q: Parsed, z: Seq<u64>, side: u64) -> u64 {
    zkey_spec(q.squares@, q.turn, z, side)
}

/// The keys `z`/`side` tell apart `p`, the positions one legal move away (from each other and
/// from `p`), and the positions two legal moves away (from `p` and from those one move away).
pub open spec fn keys_apart(p: Parsed, z: Seq<u64>, side: u64) -> bool {
    forall|m1: (u8, u8), m2: (u8, u8)|
        #[trigger] movegen::legal_moves_spec(p).contains(m1) && #[trigger] movegen::legal_moves_spec(p).contains(m2) ==> {
            &&& key_of(child_of(p, m1), z, side) != key_of(p, z, side)
            &&& m1 != m2 ==> key_of(child_of(p, m1), z, side) != key_of(child_of(p, m2), z, side)
            &&& forall|m3: (u8, u8)| #[trigger] movegen::legal_moves_spec(child_of(p, m1)).contains(m3) ==> {
                &&& key_of(child_of(child_of(p, m1), m3), z, side) != key_of(p, z, side)
                &&& key_of(child_of(child_of(p, m1), m3), z, side) != key_of(child_of(p, m2), z, side)
            }
        }
}

/// A sequence with the elements of a sequence without repeats, as long, has no repeats.
proof fn lemma_same_elements_distinct(a: Seq<(u8, u8)>, b: Seq<(u8, u8)>)
    requires
        a.no_duplicates(),
        b.len() == a.len(),
        forall|x: (u8, u8)| b.contains(x) <==> a.contains(x),
    ensures
        b.no_duplicates(),
{
    a.unique_seq_to_set();
    assert(b.to_set() =~= a.to_set());
    b.lemma_no_dup_set_cardinality();
}

/// An empty table holds no key.
proof fn lemma_tt_empty(tt: Seq<TtEntry>, key: u64)
    requires
        tt_empty(tt),
    ensures
        !tt_holds(tt, key),
{
}

/// The table holds no entry for `p` nor for a position one legal move away (under keys
/// `z`/`side`).
spec fn fresh_near(tt: Seq<TtEntry>, p: Parsed, z: Seq<u64>, side: u64) -> bool {
    &&& !tt_holds(tt, zkey_spec(p.squares@, p.turn, z, side))
    &&& forall|m: (u8, u8)| #[trigger] movegen::legal_moves_spec(p).contains(m) ==> !tt_holds(
        tt,
        zkey_spec(child_of(p, m).squares@, child_of(p, m).turn, z, side),
    )
}

/// Capture search: stand pat on the leaf value, then try only captures and den entries.
fn quiesce<L: Fn(&Parsed) -> i32, K: Clock>(
    p: &Parsed,
    net: Option<&L>,
    tb: Option<&Store>,
    alpha_in: i32,
    beta: i32,
    ply: i32,
    z: &Vec<u64>,
    side: u64,
    budget: &mut Budget,
    clock: &K,
    Ghost(lf): Ghost<spec_fn(Parsed) -> int>,
) -> (r: i32)
    requires
        board::valid_position(*p),
        p.progress < PROGRESS_LIMIT,
        p.movenum + piece_count(p.squares@, 63) <= u32::MAX,
        leaf_agrees(lf, net, tb),
        1 <= ply,
        ply + piece_count(p.squares@, 63) <= 200,
        alpha_in > i32::MIN,
        beta > i32::MIN,
        z@.len() == 17 * 63,
        net_ok(net),
        tb_ok(tb),
        budget_ok(*old(budget)),
        old(budget).nodes < old(budget).cap + NODE_SLACK,
        alpha_in <= score_bound(old(budget).contempt),
        beta >= -score_bound(old(budget).contempt),
    ensures
        r > i32::MIN,
        -score_bound(old(budget).contempt) <= r <= score_bound(old(budget).contempt),
        r == 0 || r >= -LEAF_BOUND,
        budget_ok(*final(budget)),
        budget_kept(*old(budget), *final(budget)),
        old(budget).aborted ==> final(budget).nodes == old(budget).nodes + 1 && r == 0,
        !old(budget).aborted ==> final(budget).nodes <= old(budget).cap + 1,
        clock_off(old(budget).time_ms, old(budget).nodes as int, qbound(piece_count(p.squares@, 63)) as int)
            && !old(budget).aborted && old(budget).nodes + qbound(piece_count(p.squares@, 63))
            <= old(budget).cap ==> !final(budget).aborted && final(budget).nodes <= old(budget).nodes + qbound(
            piece_count(p.squares@, 63),
        ),
        !final(budget).aborted && alpha_in < beta ==> window_ok(capture_value(*p, lf, ply as int), alpha_in as int, beta as int, r as int),
    decreases piece_count(p.squares@, 63),
{
    let ghost alpha0 = alpha_in;
    let ghost qv = capture_value(*p, lf, ply as int);
    let ghost n = piece_count(p.squares@, 63);
    let ghost n0 = old(budget).nodes;
    let ghost hq = clock_off(old(budget).time_ms, old(budget).nodes as int, qbound(n) as int) && !old(budget).aborted
        && old(budget).nodes + qbound(n) <= old(budget).cap;
    proof {
        lemma_qbound_mono(0, n);
        if n > 0 {
            lemma_qbound_mono((n - 1) as nat, (n - 1) as nat);
        }
    }
    if budget.tick(clock) {
        return 0;
    }
    let stand = eval(p, net, tb);
    assert(leaf_is(p, net, tb, stand));
    proof {
        assert(lf(*p) == stand);
        lemma_capture_max(*p, lf, ply as int, movegen::legal_moves_spec(*p).len() as int);
    }
    if stand >= beta {
        return stand;
    }
    let mut alpha = if alpha_in > stand {
        alpha_in
    } else {
        stand
    };
    let ghost a0 = alpha;
    // Tactical moves only: captures and den entries.
    let moves = legal_moves(p);
    proof {
        movegen::lemma_legal_moves_ok(*p);
    }
    let mut scored: Vec<(i32, (u8, u8))> = Vec::new();
    let mut i: usize = 0;
    while i < moves.len()
        invariant
            0 <= i <= moves@.len(),
            moves@ == movegen::legal_moves_spec(*p),
            forall|j: int| 0 <= j < moves@.len() ==> #[trigger] movegen::move_ok(*p, moves@[j]),
            forall|j: int| 0 <= j < scored@.len() ==> movegen::legal_moves_spec(*p).contains(#[trigger] scored@[j].1)
                && (p.squares[scored@[j].1.1 as int] != 0 || scored@[j].1.1 == opp_den(p.turn)),
            scored@.len() <= i,
            forall|j: int| 0 <= j < i && tactical(*p, #[trigger] moves@[j]) ==> exists|t: int|
                0 <= t < scored@.len() && scored@[t].1 == moves@[j],
        decreases moves@.len() - i,
    {
        let m = moves[i];
        assert(movegen::move_ok(*p, moves@[i as int]));
        let ghost old_sc = scored@;
        if is_tactical(p, m) {
            scored.push((order_score(p, m, None), m));
            assert(moves@.contains(m));
        }
        assert forall|j: int| 0 <= j < i + 1 && tactical(*p, #[trigger] moves@[j]) implies exists|t: int|
            0 <= t < scored@.len() && scored@[t].1 == moves@[j] by {
            if j < i {
                let t = choose|t: int| 0 <= t < old_sc.len() && old_sc[t].1 == moves@[j];
                assert(scored@[t] == old_sc[t]);
            } else {
                assert(scored@[scored@.len() - 1].1 == moves@[j]);
            }
        }
        i += 1;
    }
    let ghost sc = scored@;
    let sorted = sort_scored(scored);
    let tac = moves_of(&sorted);
    assert forall|j: int| 0 <= j < tac@.len() implies movegen::legal_moves_spec(*p).contains(#[trigger] tac@[j])
        && (p.squares[tac@[j].1 as int] != 0 || tac@[j].1 == opp_den(p.turn)) by {
        broadcast use vstd::seq_lib::group_to_multiset_ensures;
        assert(tac@[j] == sorted@[j].1);
        vstd::seq_lib::to_multiset_contains(sorted@, sorted@[j]);
        vstd::seq_lib::to_multiset_contains(sc, sorted@[j]);
        assert(sorted@.contains(sorted@[j]));
        assert(sc.contains(sorted@[j]));
    }
    assert forall|m: (u8, u8)| movegen::legal_moves_spec(*p).contains(m) && tactical(*p, m) implies #[trigger] tac@.contains(m) by {
        broadcast use vstd::seq_lib::group_to_multiset_ensures;
        let j = choose|j: int| 0 <= j < moves@.len() && moves@[j] == m;
        assert(tactical(*p, moves@[j]));
        let t = choose|t: int| 0 <= t < sc.len() && sc[t].1 == moves@[j];
        vstd::seq_lib::to_multiset_contains(sc, sc[t]);
        assert(sc.to_multiset().count(sc[t]) > 0);
        assert(sorted@.to_multiset().count(sc[t]) > 0);
        assert(sorted@.contains(sc[t]));
        let u = choose|u: int| 0 <= u < sorted@.len() && sorted@[u] == sc[t];
        assert(tac@[u] == m);
    }
    proof {
        vstd::seq_lib::to_multiset_len(sorted@);
        vstd::seq_lib::to_multiset_len(sc);
        lemma_legal_len(*p, 63);
    }
    let ghost b0 = *budget;
    let mut k: usize = 0;
    while k < tac.len()
        invariant
            0 <= k <= tac@.len(),
            n == piece_count(p.squares@, 63),
            n0 == old(budget).nodes,
            hq == (clock_off(old(budget).time_ms, old(budget).nodes as int, qbound(n) as int) && !old(budget).aborted
                && old(budget).nodes + qbound(n) <= old(budget).cap),
            tac@.len() <= 8 * n,
            1 <= qbound(n),
            n > 0 ==> qbound(n) == 1 + 8 * n * qbound((n - 1) as nat),
            hq ==> clock_off(budget.time_ms, n0 as int, qbound(n) as int) && n0 + qbound(n) <= budget.cap,
            hq ==> budget.nodes <= n0 + 1 + k * qbound((n - 1) as nat),
            leaf_is(p, net, tb, stand),
            -score_bound(old(budget).contempt) <= alpha <= score_bound(old(budget).contempt),
            beta >= -score_bound(old(budget).contempt),
            alpha >= alpha0,
            alpha0 < beta ==> alpha < beta,
            k == 0 ==> alpha == (if alpha0 >= stand {
                alpha0
            } else {
                stand
            }),
            board::valid_position(*p),
            p.progress < PROGRESS_LIMIT,
            p.movenum + piece_count(p.squares@, 63) <= u32::MAX,
            1 <= ply,
            ply + piece_count(p.squares@, 63) <= 200,
            beta > i32::MIN,
            alpha > i32::MIN,
            alpha >= stand,
            stand < beta,
            -LEAF_BOUND <= stand <= LEAF_BOUND,
            z@.len() == 17 * 63,
            net_ok(net),
            tb_ok(tb),
            forall|j: int| 0 <= j < tac@.len() ==> movegen::legal_moves_spec(*p).contains(#[trigger] tac@[j])
                && (p.squares[tac@[j].1 as int] != 0 || tac@[j].1 == opp_den(p.turn)),
            budget_ok(*budget),
            budget_kept(b0, *budget),
            budget_kept(*old(budget), b0),
            !budget.aborted,
            budget.nodes <= budget.cap,
            !old(budget).aborted,
            b0.cap == old(budget).cap,
            qv == capture_value(*p, lf, ply as int),
            alpha0 == alpha_in,
            leaf_agrees(lf, net, tb),
            lf(*p) == stand,
            a0 == (if alpha0 >= stand {
                alpha0
            } else {
                stand
            }),
            alpha0 < beta ==> forall|i: int| 0 <= i < k ==> capture_move_value(*p, lf, ply as int, #[trigger] tac@[i]) < beta,
            alpha0 < beta ==> forall|i: int| 0 <= i < k ==> capture_move_value(*p, lf, ply as int, #[trigger] tac@[i]) <= alpha,
            alpha0 < beta ==> alpha == a0 || exists|i: int| 0 <= i < k && alpha == capture_move_value(*p, lf, ply as int, #[trigger] tac@[i]),
            forall|m: (u8, u8)| movegen::legal_moves_spec(*p).contains(m) && tactical(*p, m) ==> #[trigger] tac@.contains(m),
        decreases tac@.len() - k,
    {
        let m = tac[k];
        proof {
            lemma_legal_move_facts(*p, m);
            lemma_piece_count_pos(p.squares@, m.0 as int, 63);
            assert(board::can_make_move(*p, m));
        }
        let child = make_move(p, m);
        proof {
            board::lemma_make_move_valid(*p, m, child);
        }
        let ghost bb = *budget;
        let ghost cvk = capture_move_value(*p, lf, ply as int, m);
        proof {
            lemma_wins_child(*p, m, child);
            lemma_child_of(*p, m, child);
        }
        let val = if m.1 == opp_den(p.turn) || !color_has_pieces(&child, child.turn) {
            1000000 - ply
        } else if child.progress >= PROGRESS_LIMIT {
            0
        } else {
            proof {
                lemma_capture_count(*p, m, child);
                if hq {
                    assert((k + 1) * qbound((n - 1) as nat) <= 8 * n * qbound((n - 1) as nat)) by (nonlinear_arith)
                        requires
                            k + 1 <= 8 * n,
                    ;
                    assert(k * qbound((n - 1) as nat) + qbound((n - 1) as nat) == (k + 1) * qbound((n - 1) as nat))
                        by (nonlinear_arith);
                }
            }
            let v = quiesce(&child, net, tb, -beta, -alpha, ply + 1, z, side, budget, clock, Ghost(lf));
            -v
        };
        proof {
            lemma_kept_trans(b0, bb, *budget);
            lemma_kept_trans(*old(budget), b0, *budget);
        }
        proof {
            if hq {
                assert(k * qbound((n - 1) as nat) + qbound((n - 1) as nat) == (k + 1) * qbound((n - 1) as nat))
                    by (nonlinear_arith);
                assert((k + 1) * qbound((n - 1) as nat) <= 8 * n * qbound((n - 1) as nat)) by (nonlinear_arith)
                    requires
                        k + 1 <= 8 * n,
                ;
            }
        }
        if budget.aborted {
            return 0;
        }
        proof {
            if alpha0 < beta {
                assert(window_ok(cvk, alpha as int, beta as int, val as int));
                assert(movegen::legal_moves_spec(*p).contains(m));
                let j = choose|j: int| 0 <= j < movegen::legal_moves_spec(*p).len() && movegen::legal_moves_spec(*p)[j] == m;
                assert(tactical(*p, movegen::legal_moves_spec(*p)[j]));
                lemma_capture_max(*p, lf, ply as int, movegen::legal_moves_spec(*p).len() as int);
                assert(qv >= capture_move_value(*p, lf, ply as int, movegen::legal_moves_spec(*p)[j]));
                assert(qv >= cvk);
            }
        }
        if val >= beta {
            proof {
                if alpha0 < beta {
                    assert(cvk >= beta);
                    assert(window_ok(qv, alpha0 as int, beta as int, val as int));
                }
            }
            return val;
        }
        let ghost alpha_before = alpha;
        if val > alpha {
            alpha = val;
        }
        proof {
            if alpha0 < beta {
                assert(capture_move_value(*p, lf, ply as int, tac@[k as int]) == cvk);
                if alpha != alpha_before {
                    assert(alpha == capture_move_value(*p, lf, ply as int, tac@[k as int]));
                }
            }
        }
        k += 1;
    }
    proof {
        if hq && n > 0 {
            assert(k * qbound((n - 1) as nat) <= 8 * n * qbound((n - 1) as nat)) by (nonlinear_arith)
                requires
                    k <= 8 * n,
            ;
        }
        if alpha0 < beta {
            let lm = movegen::legal_moves_spec(*p);
            lemma_capture_max(*p, lf, ply as int, lm.len() as int);
            if qv != stand {
                let j = choose|j: int| 0 <= j < lm.len() && tactical(*p, lm[j]) && qv == #[trigger] capture_move_value(*p, lf, ply as int, lm[j]);
                let mj = lm[j];
                assert(lm.contains(mj));
                assert(tac@.contains(mj));
                let i = choose|i: int| 0 <= i < tac@.len() && tac@[i] == mj;
                assert(capture_move_value(*p, lf, ply as int, tac@[i]) <= alpha);
                assert(capture_move_value(*p, lf, ply as int, tac@[i]) < beta);
            }
            if alpha != a0 {
                let i = choose|i: int| 0 <= i < k && alpha == capture_move_value(*p, lf, ply as int, #[trigger] tac@[i]);
                let mi = tac@[i];
                assert(lm.contains(mi));
                let j = choose|j: int| 0 <= j < lm.len() && lm[j] == mi;
                assert(tactical(*p, lm[j]));
                assert(qv >= capture_move_value(*p, lf, ply as int, lm[j]));
            }
        }
    }
    alpha
}

/// Negamax alpha-beta with a transposition table, repetition detection, and (when `ext`)
/// late-move reductions, null-window probes and killer/history ordering.
#[verifier::spinoff_prover]
#[verifier::rlimit(60)]
fn negamax<L: Fn(&Parsed) -> i32, K: Clock>(
    p: &Parsed,
    net: Option<&L>,
    tb: Option<&Store>,
    depth: i32,
    alpha: i32,
    beta: i32,
    ply: i32,
    z: &Vec<u64>,
    side: u64,
    tt: &mut Vec<TtEntry>,
    budget: &mut Budget,
    clock: &K,
    Ghost(lf): Ghost<spec_fn(Parsed) -> int>,
) -> (r: i32)
    requires
        board::valid_position(*p),
        leaf_agrees(lf, net, tb),
        p.progress < PROGRESS_LIMIT,
        p.movenum + height(depth as int) <= u32::MAX,
        0 <= depth,
        1 <= ply,
        ply + depth <= MAX_DEPTH,
        alpha > i32::MIN,
        beta > i32::MIN,
        z@.len() == 17 * 63,
        net_ok(net),
        tb_ok(tb),
        tt_ok(old(tt)@),
        budget_ok(*old(budget)),
        old(budget).nodes < old(budget).cap + NODE_SLACK,
        tt_within(old(tt)@, score_bound(old(budget).contempt)),
        alpha <= score_bound(old(budget).contempt),
        beta >= -score_bound(old(budget).contempt),
    ensures
        r > i32::MIN,
        tt_ok(final(tt)@),
        tt_within(final(tt)@, score_bound(old(budget).contempt)),
        -score_bound(old(budget).contempt) <= r <= score_bound(old(budget).contempt),
        budget_ok(*final(budget)),
        budget_kept(*old(budget), *final(budget)),
        old(budget).aborted ==> final(budget).nodes == old(budget).nodes + 1 && r == 0,
        !old(budget).aborted ==> final(budget).nodes <= old(budget).cap + 1,
        depth == 0 && tt_empty(old(tt)@) ==> final(tt)@ == old(tt)@ && (r == 0 || r == -old(budget).contempt
            || r == -(WIN - ply) || r >= -LEAF_BOUND),
        depth == 0 && clock_off(old(budget).time_ms, old(budget).nodes as int, 1 + qbound(piece_count(p.squares@, 63)) as int)
            && !old(budget).aborted && old(budget).nodes + 1 + qbound(
            piece_count(p.squares@, 63),
        ) <= old(budget).cap ==> !final(budget).aborted && final(budget).nodes <= old(budget).nodes + 1 + qbound(
            piece_count(p.squares@, 63),
        ),
        final(budget).nodes >= old(budget).nodes + 1,
        first_node_free(*old(budget)) && repeated(*old(budget), zkey_spec(p.squares@, p.turn, z@, side)) ==> !final(budget).aborted
            && r == -old(budget).contempt && final(tt)@ == old(tt)@ && final(budget).nodes == old(budget).nodes + 1,
        first_node_free(*old(budget)) && !repeated(*old(budget), zkey_spec(p.squares@, p.turn, z@, side)) && !tt_holds(
            old(tt)@,
            zkey_spec(p.squares@, p.turn, z@, side),
        ) && movegen::legal_moves_spec(*p).len() == 0 ==> !final(budget).aborted && r == -(WIN - ply),
        !final(budget).aborted && repeated(*old(budget), zkey_spec(p.squares@, p.turn, z@, side)) ==> r
            == -old(budget).contempt && final(tt)@ == old(tt)@ && final(budget).nodes == old(budget).nodes + 1,
        !final(budget).aborted && !repeated(*old(budget), zkey_spec(p.squares@, p.turn, z@, side)) && !tt_holds(
            old(tt)@,
            zkey_spec(p.squares@, p.turn, z@, side),
        ) && movegen::legal_moves_spec(*p).len() == 0 ==> r == -(WIN - ply),
        depth == 0 && !final(budget).aborted && alpha < beta && !repeated(*old(budget), zkey_spec(p.squares@, p.turn, z@, side))
            && !tt_holds(old(tt)@, zkey_spec(p.squares@, p.turn, z@, side)) && movegen::legal_moves_spec(*p).len() > 0
            ==> window_ok(capture_value(*p, lf, ply as int), alpha as int, beta as int, r as int),
        clock_off(old(budget).time_ms, old(budget).nodes as int, nbound(depth as int, piece_count(p.squares@, 63)) as int)
            && !old(budget).aborted && old(budget).nodes + nbound(depth as int, piece_count(p.squares@, 63))
            <= old(budget).cap ==> !final(budget).aborted && final(budget).nodes <= old(budget).nodes + nbound(
            depth as int,
            piece_count(p.squares@, 63),
        ),
        depth > 0 && !final(budget).aborted && alpha < beta && !repeated(*old(budget), zkey_spec(p.squares@, p.turn, z@, side))
            && !tt_holds(old(tt)@, zkey_spec(p.squares@, p.turn, z@, side)) && win_available(*p) ==> r >= WIN - ply || r
            >= beta,
        depth == 1 && fresh_near(old(tt)@, *p, z@, side) && score_bound(old(budget).contempt) == WIN && !final(budget).aborted && alpha < beta && !repeated(*old(budget), zkey_spec(p.squares@, p.turn, z@, side))
            && movegen::legal_moves_spec(*p).len() > 0 ==> window_ok(one_ply_value(*p, lf, ply as int, old(budget).path@.push(zkey_spec(p.squares@, p.turn, z@, side)), old(budget).rep_seed@, old(budget).contempt as int, z@, side), alpha as int, beta as int, r as int),
        depth == 0 ==> final(tt)@ == old(tt)@,
        depth == 1 ==> forall|k: u64| #[trigger] tt_holds(final(tt)@, k) ==> tt_holds(old(tt)@, k) || k == zkey_spec(p.squares@, p.turn, z@, side),
    decreases depth,
{
    let ghost sb = score_bound(old(budget).contempt);
    let ghost n = piece_count(p.squares@, 63);
    let ghost n0 = old(budget).nodes;
    let ghost nb = nbound(depth as int, n);
    let ghost nb1 = nbound(depth - 1, n);
    let ghost hn = clock_off(old(budget).time_ms, n0 as int, nb as int) && !old(budget).aborted && n0 + nb <= old(budget).cap;
    proof {
        lemma_nbound_depth(0, 0, n);
        lemma_nbound_depth(depth - 1, depth as int, n);
        lemma_qbound_mono(0, n);
    }
    let ghost a_in = alpha;
    let ghost nohit = !repeated(*old(budget), zkey_spec(p.squares@, p.turn, z@, side)) && !tt_holds(
        old(tt)@,
        zkey_spec(p.squares@, p.turn, z@, side),
    );
    if budget.tick(clock) {
        return 0;
    }
    let key = zkey(p, z, side);
    if vec_contains(&budget.path, key) || vec_contains(&budget.rep_seed, key) {
        return -budget.contempt;
    }
    let slot = tt_slot(key);
    let mut alpha = alpha;
    let mut tt_mv: Option<(u8, u8)> = None;
    let e = tt[slot];
    assert(tt@[slot as int].value > i32::MIN);
    if e.flag != 0 && e.key == key {
        tt_mv = Some(e.mv);
        if e.depth >= depth {
            if e.flag == 1 {
                return e.value;
            } else if e.flag == 2 {
                if e.value > alpha {
                    alpha = e.value;
                }
            } else if e.flag == 3 {
                if e.value <= alpha {
                    return e.value;
                }
            }
            if alpha >= beta {
                return e.value;
            }
        }
    }
    let killers = budget.killers[ply as usize];
    let moves = if budget.ext {
        ordered_moves_ext(p, tt_mv, &killers, &budget.history)
    } else {
        ordered_moves(p, tt_mv)
    };
    if moves.len() == 0 {
        return -(1000000 - ply);
    }
    if depth <= 0 {
        proof {
            lemma_piece_count_bound(p.squares@, 63);
        }
        return quiesce(p, net, tb, alpha, beta, ply, z, side, budget, clock, Ghost(lf));
    }
    proof {
        lemma_legal_len(*p, 63);
    }
    let alpha_orig = alpha;
    let mut best: i32 = -2000000;
    let mut best_mv = moves[0];
    let ghost b0 = *budget;
    let ghost d1 = depth == 1 && fresh_near(old(tt)@, *p, z@, side) && a_in < beta && score_bound(old(budget).contempt) == WIN;
    let ghost mut cut = false;
    proof {
        if d1 {
            assert(!tt_holds(old(tt)@, key));
        }
    }
    budget.path.push(key);
    let mut idx: usize = 0;
    while idx < moves.len()
        invariant_except_break
            idx > 0 ==> alpha < beta,
            !cut,
            d1 ==> forall|i: int| 0 <= i < idx ==> #[trigger] ply_move_value(*p, lf, ply as int, old(budget).path@.push(key), old(budget).rep_seed@, old(budget).contempt as int, z@, side, moves@[i]) < beta,
            d1 ==> forall|i: int| 0 <= i < idx ==> best >= #[trigger] ply_move_value(*p, lf, ply as int, old(budget).path@.push(key), old(budget).rep_seed@, old(budget).contempt as int, z@, side, moves@[i]),
            d1 && idx > 0 ==> best <= a_in || exists|i: int| 0 <= i < idx && best == #[trigger] ply_move_value(*p, lf, ply as int, old(budget).path@.push(key), old(budget).rep_seed@, old(budget).contempt as int, z@, side, moves@[i]),
        invariant
            0 <= idx <= moves@.len(),
            forall|m: (u8, u8)| moves@.contains(m) <==> movegen::legal_moves_spec(*p).contains(m),
            d1 == (depth == 1 && fresh_near(old(tt)@, *p, z@, side) && a_in < beta && score_bound(old(budget).contempt) == WIN),
            d1 ==> alpha_orig == a_in,
            depth == 1 ==> tt@ == old(tt)@,
            board::valid_position(*p),
            p.progress < PROGRESS_LIMIT,
            p.movenum + height(depth as int) <= u32::MAX,
            1 <= depth,
            1 <= ply,
            ply + depth <= MAX_DEPTH,
            alpha > i32::MIN,
            beta > i32::MIN,
            moves@.len() > 0,
            idx > 0 ==> best > i32::MIN && alpha >= best,
            z@.len() == 17 * 63,
            net_ok(net),
            tb_ok(tb),
            tt_ok(tt@),
            budget_ok(*budget),
            budget_kept(*old(budget), b0),
            budget.path@ == b0.path@.push(key),
            budget.cap == b0.cap,
            budget.time_ms == b0.time_ms,
            budget.rep_seed@ == b0.rep_seed@,
            budget.contempt == b0.contempt,
            budget.ext == b0.ext,
            budget.killers@.len() == b0.killers@.len(),
            budget.history@.len() == b0.history@.len(),
            b0.nodes <= budget.nodes,
            !budget.aborted,
            budget.nodes <= budget.cap,
            !old(budget).aborted,
            nohit ==> alpha_orig == a_in,
            key == zkey_spec(p.squares@, p.turn, z@, side),
            !repeated(*old(budget), key),
            leaf_agrees(lf, net, tb),
            sb == score_bound(old(budget).contempt),
            n == piece_count(p.squares@, 63),
            n0 == old(budget).nodes,
            nb == nbound(depth as int, n),
            nb1 == nbound(depth - 1, n),
            nb == 1 + qbound(n) + 24 * n * nb1,
            nb1 >= 1,
            moves@.len() <= 8 * n,
            hn == (clock_off(old(budget).time_ms, n0 as int, nb as int) && !old(budget).aborted && n0 + nb <= old(budget).cap),
            hn ==> clock_off(budget.time_ms, n0 as int, nb as int) && n0 + nb <= budget.cap,
            hn ==> budget.nodes <= n0 + 1 + 3 * idx * nb1,
            sb == score_bound(budget.contempt),
            sb >= WIN,
            tt_within(tt@, sb),
            alpha <= sb,
            alpha_orig <= sb,
            beta >= -sb,
            idx > 0 ==> -sb <= best <= sb,
            idx == 0 ==> best == -INF,
            idx == 0 ==> alpha == alpha_orig,
            idx > 0 ==> alpha == (if alpha_orig >= best {
                alpha_orig
            } else {
                best
            }),
            forall|j: int| 0 <= j < idx && #[trigger] wins_at_once(*p, moves@[j]) ==> best >= WIN - ply,
        ensures
            idx > 0,
            d1 && cut ==> beta <= best <= one_ply_value(*p, lf, ply as int, old(budget).path@.push(key), old(budget).rep_seed@, old(budget).contempt as int, z@, side),
            d1 && !cut ==> idx == moves@.len() && (forall|i: int| 0 <= i < idx ==> #[trigger] ply_move_value(*p, lf, ply as int, old(budget).path@.push(key), old(budget).rep_seed@, old(budget).contempt as int, z@, side, moves@[i]) < beta)
                && (forall|i: int| 0 <= i < idx ==> best >= #[trigger] ply_move_value(*p, lf, ply as int, old(budget).path@.push(key), old(budget).rep_seed@, old(budget).contempt as int, z@, side, moves@[i])) && (best <= a_in || exists|i: int|
                0 <= i < idx && best == #[trigger] ply_move_value(*p, lf, ply as int, old(budget).path@.push(key), old(budget).rep_seed@, old(budget).contempt as int, z@, side, moves@[i])),
            nohit && a_in < beta ==> best >= beta || forall|j: int|
                0 <= j < moves@.len() && #[trigger] wins_at_once(*p, moves@[j]) ==> best >= WIN - ply,
        decreases moves@.len() - idx,
    {
        let m = moves[idx];
        proof {
            assert(moves@.contains(m));
            lemma_legal_move_facts(*p, m);
        }
        let child = make_move(p, m);
        proof {
            board::lemma_make_move_valid(*p, m, child);
        }
        proof {
            lemma_child_count(*p, m, child);
            lemma_nbound_pieces(depth - 1, piece_count(child.squares@, 63), n);
            lemma_nbound_depth(depth - 2, depth - 1, piece_count(child.squares@, 63));
            if hn {
                assert(3 * (idx + 1) * nb1 <= 24 * n * nb1) by (nonlinear_arith)
                    requires
                        idx + 1 <= 8 * n,
                        nb1 >= 1,
                ;
                assert(3 * idx * nb1 + 3 * nb1 == 3 * (idx + 1) * nb1) by (nonlinear_arith);
            }
        }
        let tactical = is_tactical(p, m);
        let ghost mvm = ply_move_value(*p, lf, ply as int, old(budget).path@.push(key), old(budget).rep_seed@, old(budget).contempt as int, z@, side, m);
        let ghost qsv = quiet_search_value(child, lf, ply + 1, old(budget).path@.push(key), old(budget).rep_seed@, old(budget).contempt as int, z@, side);
        proof {
            lemma_wins_child(*p, m, child);
            lemma_child_of(*p, m, child);
            if d1 {
                assert(movegen::legal_moves_spec(*p).contains(m));
                assert(!tt_holds(tt@, zkey_spec(child.squares@, child.turn, z@, side)));
            }
        }
        let val = if m.1 == opp_den(p.turn) || !color_has_pieces(&child, child.turn) {
            1000000 - ply
        } else if child.progress >= PROGRESS_LIMIT {
            0
        } else if idx == 0 || !budget.ext {
            let v = negamax(&child, net, tb, depth - 1, -beta, -alpha, ply + 1, z, side, tt, budget, clock, Ghost(lf));
            proof {
                if d1 && !budget.aborted {
                    assert(window_ok(qsv, -beta as int, -alpha as int, v as int));
                    lemma_window_neg(mvm, alpha as int, beta as int, -v as int);
                }
            }
            -v
        } else {
            let red: i32 = if depth >= 3 && idx >= 3 && !tactical {
                1
            } else {
                0
            };
            let v1 = negamax(&child, net, tb, depth - 1 - red, -alpha - 1, -alpha, ply + 1, z, side, tt, budget, clock, Ghost(lf));
            let mut s = -v1;
            proof {
                if d1 && !budget.aborted {
                    assert(window_ok(qsv, (-alpha - 1) as int, -alpha as int, v1 as int));
                    lemma_window_neg(mvm, alpha as int, alpha + 1, s as int);
                    if s <= alpha || s >= beta {
                        lemma_window_null(mvm, alpha as int, beta as int, s as int);
                    }
                }
            }
            if s > alpha && red > 0 && !budget.aborted {
                let v2 = negamax(&child, net, tb, depth - 1, -alpha - 1, -alpha, ply + 1, z, side, tt, budget, clock, Ghost(lf));
                s = -v2;
            }
            if s > alpha && s < beta && !budget.aborted {
                let v3 = negamax(&child, net, tb, depth - 1, -beta, -alpha, ply + 1, z, side, tt, budget, clock, Ghost(lf));
                s = -v3;
                proof {
                    if d1 && !budget.aborted {
                        assert(window_ok(qsv, -beta as int, -alpha as int, v3 as int));
                        lemma_window_neg(mvm, alpha as int, beta as int, s as int);
                    }
                }
            }
            s
        };
        if budget.aborted {
            budget.path.pop();
            assert(b0.path@.push(key).drop_last() == b0.path@);
            return 0;
        }
        assert(-sb <= val <= sb);
        proof {
            if d1 {
                assert(window_ok(mvm, alpha as int, beta as int, val as int));
            }
        }
        let ghost best_before = best;
        if val > best {
            best = val;
            best_mv = m;
        }
        if best > alpha {
            alpha = best;
        }
        proof {
            if d1 {
                assert(ply_move_value(*p, lf, ply as int, old(budget).path@.push(key), old(budget).rep_seed@, old(budget).contempt as int, z@, side, moves@[idx as int]) == mvm);
                assert(moves@.contains(m));
                let lm = movegen::legal_moves_spec(*p);
                let j = choose|j: int| 0 <= j < lm.len() && lm[j] == m;
                lemma_ply_max(*p, lf, ply as int, old(budget).path@.push(key), old(budget).rep_seed@, old(budget).contempt as int, z@, side, lm.len() as int);
                assert(ply_move_value(*p, lf, ply as int, old(budget).path@.push(key), old(budget).rep_seed@, old(budget).contempt as int, z@, side, lm[j]) <= one_ply_value(*p, lf, ply as int, old(budget).path@.push(key), old(budget).rep_seed@, old(budget).contempt as int, z@, side));
                if best != best_before && best != mvm && best < beta {
                    assert(best <= a_in);
                }
            }
        }
        if alpha >= beta {
            if budget.ext && !tactical {
                // A quiet move caused a cutoff: remember it as a killer and in the history.
                let mut k = budget.killers[ply as usize];
                if !mv_eq(k[0], m) {
                    k[1] = k[0];
                    k[0] = m;
                }
                budget.killers.set(ply as usize, k);
                let hi = m.0 as usize * 63 + m.1 as usize;
                let h = budget.history[hi];
                assert(depth * depth <= 576) by (nonlinear_arith)
                    requires
                        1 <= depth <= 24,
                ;
                let inc = depth * depth;
                let nh = if h > i32::MAX - inc {
                    i32::MAX
                } else {
                    h + inc
                };
                budget.history.set(hi, nh);
            }
            proof {
                cut = true;
            }
            idx += 1;
            break;
        }
        idx += 1;
    }
    budget.path.pop();
    assert(b0.path@.push(key).drop_last() == b0.path@);
    proof {
        if d1 && !cut {
            let lm = movegen::legal_moves_spec(*p);
            lemma_ply_max(*p, lf, ply as int, old(budget).path@.push(key), old(budget).rep_seed@, old(budget).contempt as int, z@, side, lm.len() as int);
            let j = choose|j: int| 0 <= j < lm.len() && one_ply_value(*p, lf, ply as int, old(budget).path@.push(key), old(budget).rep_seed@, old(budget).contempt as int, z@, side) == #[trigger] ply_move_value(*p, lf, ply as int, old(budget).path@.push(key), old(budget).rep_seed@, old(budget).contempt as int, z@, side, lm[j]);
            assert(lm.contains(lm[j]));
            assert(moves@.contains(lm[j]));
            let i = choose|i: int| 0 <= i < moves@.len() && moves@[i] == lm[j];
            assert(ply_move_value(*p, lf, ply as int, old(budget).path@.push(key), old(budget).rep_seed@, old(budget).contempt as int, z@, side, moves@[i]) < beta);
            assert(best >= ply_move_value(*p, lf, ply as int, old(budget).path@.push(key), old(budget).rep_seed@, old(budget).contempt as int, z@, side, moves@[i]));
            if best > a_in {
                let i2 = choose|i2: int| 0 <= i2 < idx && best == #[trigger] ply_move_value(*p, lf, ply as int, old(budget).path@.push(key), old(budget).rep_seed@, old(budget).contempt as int, z@, side, moves@[i2]);
                assert(moves@.contains(moves@[i2]));
                let j2 = choose|j2: int| 0 <= j2 < lm.len() && lm[j2] == moves@[i2];
                assert(ply_move_value(*p, lf, ply as int, old(budget).path@.push(key), old(budget).rep_seed@, old(budget).contempt as int, z@, side, lm[j2]) <= one_ply_value(*p, lf, ply as int, old(budget).path@.push(key), old(budget).rep_seed@, old(budget).contempt as int, z@, side));
            }
            assert(window_ok(one_ply_value(*p, lf, ply as int, old(budget).path@.push(key), old(budget).rep_seed@, old(budget).contempt as int, z@, side), a_in as int, beta as int, best as int));
        }
    }
    proof {
        if hn {
            assert(3 * idx * nb1 <= 24 * n * nb1) by (nonlinear_arith)
                requires
                    idx <= 8 * n,
                    nb1 >= 1,
            ;
        }
    }
    let flag: u8 = if best <= alpha_orig {
        3
    } else if best >= beta {
        2
    } else {
        1
    };
    let e = tt[slot];
    let ghost tt_before = tt@;
    if e.flag == 0 || e.key != key || e.depth <= depth {
        tt.set(slot, TtEntry { key, depth, value: best, flag, mv: best_mv });
    }
    proof {
        assert forall|k: u64| #[trigger] tt_holds(tt@, k) implies tt_holds(tt_before, k) || k == key by {
            let i = choose|i: int| 0 <= i < tt@.len() && #[trigger] tt@[i].flag != 0 && tt@[i].key == k;
            if i != slot {
                assert(tt_before[i] == tt@[i]);
            }
        }
    }
    best
}

// ── Root search ─────────────────────────────────────────────────────────────

/// What a search consumed: the nodes it visited and the last iterative-deepening iteration it
/// completed (0 when even the first was cut short).
#[derive(Clone, Copy, Debug)]
pub struct SearchStats {
    pub nodes: u64,
    pub depth: i32,
}

impl Default for SearchStats {
    fn default() -> (s: SearchStats)
        ensures
            s.nodes == 0,
            s.depth == 0,
    {
        SearchStats { nodes: 0, depth: 0 }
    }
}

/// Does `m` win at once: it enters the opponent's den or takes the opponent's last piece?
pub open spec fn wins_at_once(p: Parsed, m: (u8, u8)) -> bool {
    let after = board::moved_squares(p.squares@, m.0 as int, m.1 as int);
    m.1 == opp_den(p.turn) || !(exists|i: int| 0 <= i < 63 && crate::board::color_of(#[trigger] after[i]) == 1 - p.turn)
}

/// Some legal move of `p` wins at once.
pub open spec fn win_available(p: Parsed) -> bool {
    exists|m: (u8, u8)| movegen::legal_moves_spec(p).contains(m) && #[trigger] wins_at_once(p, m)
}

/// Inputs that the search can take: a valid position with room on its clocks, a node budget
/// that leaves room above it, a negatable contempt, a bounded leaf evaluator and
/// a store of well-sized tables.
pub open spec fn search_ready<L: Fn(&Parsed) -> i32>(p: Parsed, net: Option<&L>, tb: Option<&Store>, node_budget: u64, contempt: i32) -> bool {
    &&& position_ready(p, node_budget)
    &&& contempt > i32::MIN
    &&& net_ok(net)
    &&& tb_ok(tb)
}

/// A valid position with room on its clocks, and a node budget that leaves room above it.
pub open spec fn position_ready(p: Parsed, node_budget: u64) -> bool {
    &&& board::valid_position(p)
    &&& p.progress < u32::MAX
    &&& p.movenum <= u32::MAX - 128
    &&& node_budget <= u64::MAX - NODE_SLACK
}

fn new_killers() -> (k: Vec<[(u8, u8); 2]>)
    ensures
        k@.len() == KILLER_SLOTS,
{
    let mut k: Vec<[(u8, u8); 2]> = Vec::new();
    let mut i: usize = 0;
    while i < KILLER_SLOTS
        invariant
            0 <= i <= KILLER_SLOTS,
            k@.len() == i,
        decreases KILLER_SLOTS - i,
    {
        k.push([(255, 255); 2]);
        i += 1;
    }
    k
}

fn new_history() -> (h: Vec<i32>)
    ensures
        h@.len() == HISTORY_LEN,
{
    let mut h: Vec<i32> = Vec::new();
    let mut i: usize = 0;
    while i < HISTORY_LEN
        invariant
            0 <= i <= HISTORY_LEN,
            h@.len() == i,
        decreases HISTORY_LEN - i,
    {
        h.push(0);
        i += 1;
    }
    h
}

/// Keys of the positions that the first `n` FENs describe, in order (FENs that do not read are
/// skipped).
pub open spec fn rep_keys_upto(fens: Seq<String>, z: Seq<u64>, side: u64, n: int) -> Seq<u64>
    decreases n,
{
    if n <= 0 {
        Seq::empty()
    } else {
        let before = rep_keys_upto(fens, z, side, n - 1);
        match fen::fen_parse_spec(fens[n - 1]@) {
            Some(t) => before.push(zkey_spec(t.0, t.1, z, side)),
            None => before,
        }
    }
}

/// Keys of the positions that the FENs describe (FENs that do not read are skipped).
fn repetition_keys(rep_fens: &[String], z: &Vec<u64>, side: u64) -> (keys: Vec<u64>)
    requires
        z@.len() == 17 * 63,
    ensures
        keys@ == rep_keys_upto(rep_fens@, z@, side, rep_fens@.len() as int),
{
    let mut keys: Vec<u64> = Vec::new();
    let mut i: usize = 0;
    while i < rep_fens.len()
        invariant
            0 <= i <= rep_fens@.len(),
            z@.len() == 17 * 63,
            keys@ == rep_keys_upto(rep_fens@, z@, side, i as int),
        decreases rep_fens@.len() - i,
    {
        match state_from_fen(rep_fens[i].as_str()) {
            Some(s) => {
                proof {
                    fen::lemma_fen_parse_valid(rep_fens@[i as int]@, s);
                }
                keys.push(zkey(&s, z, side));
            },
            None => {},
        }
        i += 1;
    }
    keys
}

/// The line of the root search of `p`: its key under the search's keys.
pub open spec fn root_line(p: Parsed) -> Seq<u64> {
    seq![zkey_spec(p.squares@, p.turn, zobrist_keys(), zobrist_side())]
}

/// Keys of the earlier game positions that the FENs `rep_fens` describe, under the search's keys.
pub open spec fn seed_keys(rep_fens: Seq<String>) -> Seq<u64> {
    rep_keys_upto(rep_fens, zobrist_keys(), zobrist_side(), rep_fens.len() as int)
}

/// What root move `m` of `p` is worth in the first iteration of a search with leaf values
/// `lf`, repetition seeds `rep_fens` and contempt `contempt`: a win when it wins at once, a draw
/// when it runs the no-capture clock out, else the negated depth-0 value of the position it
/// makes (a draw worth `-contempt` on a repetition, a loss with no legal move, else its
/// capture-search value).
pub open spec fn first_move_value(p: Parsed, lf: spec_fn(Parsed) -> int, rep_fens: Seq<String>, contempt: int, m: (u8, u8)) -> int {
    ply_move_value(p, lf, 0, root_line(p), seed_keys(rep_fens), contempt, zobrist_keys(), zobrist_side(), m)
}

/// The first iteration's value of `p`: the best `first_move_value` of its legal moves.
pub open spec fn first_value(p: Parsed, lf: spec_fn(Parsed) -> int, rep_fens: Seq<String>, contempt: int) -> int {
    one_ply_value(p, lf, 0, root_line(p), seed_keys(rep_fens), contempt, zobrist_keys(), zobrist_side())
}

/// The value of move `m` of `p` that needs no search, if it has one: a win when it wins at once,
/// a draw when it runs the no-capture clock out, and `contempt` when the position it makes repeats
/// one of the keys `path` or `seeds` (under keys `z`/`side`).
pub open spec fn settled_value(
    p: Parsed,
    m: (u8, u8),
    path: Seq<u64>,
    seeds: Seq<u64>,
    contempt: int,
    z: Seq<u64>,
    side: u64,
) -> Option<int> {
    let c = child_of(p, m);
    let k = zkey_spec(c.squares@, c.turn, z, side);
    if wins_at_once(p, m) {
        Some(WIN as int)
    } else if c.progress >= PROGRESS_LIMIT {
        Some(0)
    } else if path.contains(k) || seeds.contains(k) {
        Some(contempt)
    } else {
        None
    }
}

/// `settled_value` of a root move: repetition of the root or of the game positions `rep_fens`.
pub open spec fn root_settled_value(p: Parsed, rep_fens: Seq<String>, contempt: int, m: (u8, u8)) -> Option<int> {
    settled_value(p, m, root_line(p), seed_keys(rep_fens), contempt, zobrist_keys(), zobrist_side())
}

/// What root move `m` of `p` is worth in the second iteration of a search with leaf values `lf`,
/// repetition seeds `rep_fens` and contempt `contempt`: `two_ply_move_value` at the root.
pub open spec fn second_move_value(p: Parsed, lf: spec_fn(Parsed) -> int, rep_fens: Seq<String>, contempt: int, m: (u8, u8)) -> int {
    two_ply_move_value(p, lf, 0, root_line(p), seed_keys(rep_fens), contempt, zobrist_keys(), zobrist_side(), m)
}

/// The second iteration's value of `p`: the best `second_move_value` of its legal moves.
pub open spec fn second_value(p: Parsed, lf: spec_fn(Parsed) -> int, rep_fens: Seq<String>, contempt: int) -> int {
    two_ply_value(p, lf, 0, root_line(p), seed_keys(rep_fens), contempt, zobrist_keys(), zobrist_side())
}

/// What root move `m` of `p` is worth at depth 1 of a root analysis: `first_move_value` with
/// the handcrafted evaluation, no repetition seeds and no contempt.
pub open spec fn analysis_first_value(p: Parsed, m: (u8, u8)) -> int {
    first_move_value(p, hand_fn(), Seq::empty(), 0, m)
}

/// A square adds at least -700 to the handcrafted evaluation.
proof fn lemma_eval_sum_lower(q: Parsed, k: int)
    requires
        0 <= k <= 63,
        q.turn <= 1,
    ensures
        eval::eval_sum(q, k) >= -700 * k,
    decreases k,
{
    if k > 0 {
        lemma_eval_sum_lower(q, k - 1);
        let i = k - 1;
        let code = q.squares[i];
        if code != 0 {
            let target: int = if board::color_of(code) == q.turn {
                opp_den(q.turn) as int
            } else {
                board::own_den(q.turn) as int
            };
            assert(target == 3 || target == 59);
            assert(0 <= i % 7 < 7 && 0 <= i / 7 < 9);
            assert(eval::manhattan_spec(i, target) <= 14);
            assert(eval::role_value(board::role_of(code)) <= 100);
        }
    }
}

/// A move that does not win at once is worth less than a win at depth 1 of a root analysis.
pub proof fn lemma_first_value_below_win(p: Parsed, m: (u8, u8))
    requires
        p.turn <= 1,
        !wins_at_once(p, m),
    ensures
        analysis_first_value(p, m) < WIN,
{
    let c = child_of(p, m);
    lemma_eval_sum_lower(c, 63);
    lemma_capture_max(c, hand_fn(), 1, movegen::legal_moves_spec(c).len() as int);
    assert(hand_fn()(c) == eval::eval_sum(c, 63));
}

/// Iterative-deepening negamax (transposition table, capture search, repetition as a draw
/// worth `-contempt`), also reporting what it consumed. With no legal move: ((255, 255), -WIN,
/// nothing consumed). Otherwise a legal move: the best move of the last completed iteration, or
/// the first legal move when none completed; the search stops early once it finds a forced win.
/// The node count is the search's own: at most one past the budget, where the node that ran it
/// out stops the search; without a time limit, a count within the budget means every iteration
/// completed or a forced win was found.
/// When the last completed iteration is the first, its score is `first_value` (each root move
/// valued by a one-ply search over capture-search leaves) and the move is one that attains it;
/// when it is the second and the keys tell apart the positions within two moves of the root
/// (`keys_apart`, so that the table returns nothing it should not), likewise with
/// `second_value`. At every completed iteration the score is at least each root move's
/// `root_settled_value`.
#[verifier::spinoff_prover]
#[verifier::rlimit(60)]
pub fn best_move_scored_stats<L: Fn(&Parsed) -> i32, K: Clock>(
    p: &Parsed,
    net: Option<&L>,
    tb: Option<&Store>,
    node_budget: u64,
    time_ms: u64,
    rep_fens: &[String],
    contempt: i32,
    ext: bool,
    clock: &K,
) -> (r: ((u8, u8), i32, SearchStats))
    requires
        search_ready(*p, net, tb, node_budget, contempt),
    ensures
        movegen::legal_moves_spec(*p).len() == 0 ==> r.0 == (255u8, 255u8) && r.1 == -WIN && r.2.nodes == 0 && r.2.depth == 0,
        movegen::legal_moves_spec(*p).len() > 0 ==> {
            &&& movegen::legal_moves_spec(*p).contains(r.0)
            &&& 0 <= r.2.depth <= MAX_DEPTH
            &&& r.2.depth == 0 ==> r.0 == movegen::legal_moves_spec(*p)[0] && r.1 == -INF
            &&& r.2.nodes <= node_budget + 1
            &&& r.2.depth >= 1 ==> -score_bound(contempt) <= r.1 <= score_bound(contempt)
            &&& time_ms == 0 && r.2.nodes <= node_budget ==> r.2.depth == MAX_DEPTH || r.1 >= WIN - MAX_DEPTH
            &&& (r.2.depth >= 1 && contempt < WIN && (exists|m: (u8, u8)|
                movegen::legal_moves_spec(*p).contains(m) && #[trigger] wins_at_once(*p, m))) ==> wins_at_once(*p, r.0)
                && r.1 == WIN && r.2.depth == 1
        },
        depth_one_covered(*p, node_budget, time_ms as u128) ==> r.2.depth >= 1,
        forall|d: int| #[trigger] depth_covered(*p, node_budget, time_ms as u128, d) ==> r.2.depth >= d || r.1 >= WIN - MAX_DEPTH,
        r.2.depth == 1 && score_bound(contempt) == WIN ==> r.1 == first_value(*p, leaf_fn(net, tb), rep_fens@, contempt as int)
            && r.1 == first_move_value(*p, leaf_fn(net, tb), rep_fens@, contempt as int, r.0),
        r.2.depth == 2 && score_bound(contempt) == WIN && keys_apart(*p, zobrist_keys(), zobrist_side()) ==> r.1 == second_value(
            *p,
            leaf_fn(net, tb),
            rep_fens@,
            contempt as int,
        ) && r.1 == second_move_value(*p, leaf_fn(net, tb), rep_fens@, contempt as int, r.0),
        r.2.depth >= 1 ==> forall|m: (u8, u8)|
            movegen::legal_moves_spec(*p).contains(m) && #[trigger] root_settled_value(*p, rep_fens@, contempt as int, m) is Some
                ==> r.1 >= root_settled_value(*p, rep_fens@, contempt as int, m).unwrap(),
{
    let root = legal_moves(p);
    if root.len() == 0 {
        return ((255, 255), -1000000, SearchStats { nodes: 0, depth: 0 });
    }
    assert(root@.contains(root@[0]));
    let (z, side) = build_zobrist();
    let key = zkey(p, &z, side);
    let rep_seed = repetition_keys(rep_fens, &z, side);
    let ghost lf0 = leaf_fn(net, tb);
    let ghost rl = seq![key];
    let ghost seeds0 = rep_seed@;
    let mut tt = new_tt();
    let mut budget = Budget {
        nodes: 0,
        cap: node_budget,
        start_ms: if time_ms > 0 {
            clock.now_ms()
        } else {
            0
        },
        time_ms: time_ms as u128,
        aborted: false,
        rep_seed,
        path: Vec::new(),
        contempt,
        killers: new_killers(),
        history: new_history(),
        ext,
    };
    let mut best = root[0];
    let mut best_score: i32 = -2000000;
    let mut completed_depth: i32 = 0;
    let ghost win_exists = exists|m: (u8, u8)| movegen::legal_moves_spec(*p).contains(m) && #[trigger] wins_at_once(*p, m);
    let ghost hb = depth_one_covered(*p, node_budget, time_ms as u128);
    let ghost q = qbound(piece_count(p.squares@, 63));
    let ghost nl = movegen::legal_moves_spec(*p).len();
    let ghost pn = piece_count(p.squares@, 63);
    proof {
        lemma_qbound_mono(0, piece_count(p.squares@, 63));
    }
    proof {
        lemma_leaf_fn(net, tb);
    }
    let mut depth: i32 = 1;
    while depth <= MAX_DEPTH
        invariant_except_break
            completed_depth == depth - 1,
            forall|d: int| #[trigger] depth_covered(*p, node_budget, time_ms as u128, d) && depth <= d ==> !budget.aborted
                && budget.nodes <= (depth - 1) * nl * nbound(depth - 2, pn),
            !budget.aborted,
            budget.nodes <= budget.cap,
            depth == 1 ==> tt_empty(tt@),
            depth == 2 ==> forall|kk: u64| #[trigger] tt_holds(tt@, kk) ==> kk == key,
        invariant
            1 <= depth <= MAX_DEPTH + 1,
            0 <= completed_depth <= MAX_DEPTH,
            completed_depth <= depth,
            depth >= 2 && contempt < WIN ==> !win_exists,
            search_ready(*p, net, tb, node_budget, contempt),
            root@ == movegen::legal_moves_spec(*p),
            root@.len() > 0,
            z@.len() == 17 * 63,
            tt_ok(tt@),
            budget_ok(budget),
            budget.cap == node_budget,
            budget.contempt == contempt,
            budget.nodes <= budget.cap + NODE_SLACK / 2,
            movegen::legal_moves_spec(*p).contains(best),
            completed_depth == 0 ==> best == root@[0] && best_score == -INF,
            win_exists == (exists|m: (u8, u8)| movegen::legal_moves_spec(*p).contains(m) && #[trigger] wins_at_once(*p, m)),
            completed_depth >= 1 && contempt < WIN && win_exists ==> wins_at_once(*p, best),
            completed_depth >= 1 && contempt < WIN && win_exists ==> completed_depth == 1 && best_score == WIN,
            hb == depth_one_covered(*p, node_budget, time_ms as u128),
            q == qbound(piece_count(p.squares@, 63)),
            nl == movegen::legal_moves_spec(*p).len(),
            budget.time_ms == time_ms as u128,
            hb ==> completed_depth >= 1 || (depth == 1 && budget.nodes == 0 && !budget.aborted),
            tt_within(tt@, score_bound(contempt)),
            completed_depth >= 1 ==> -score_bound(contempt) <= best_score <= score_bound(contempt),
            pn == piece_count(p.squares@, 63),
            z@ == zobrist_keys() && side == zobrist_side() && key == zkey_spec(p.squares@, p.turn, z@, side),
            rl == seq![key] && lf0 == leaf_fn(net, tb) && seeds0 == seed_keys(rep_fens@),
            budget.rep_seed@ == seeds0,
            leaf_agrees(lf0, net, tb),
            completed_depth == 1 && score_bound(contempt) == WIN ==> best_score == one_ply_value(*p, lf0, 0, rl, seeds0, contempt as int, z@, side) && best_score == ply_move_value(*p, lf0, 0, rl, seeds0, contempt as int, z@, side, best),
            completed_depth == 2 && score_bound(contempt) == WIN && keys_apart(*p, z@, side) ==> best_score == two_ply_value(*p, lf0, 0, rl, seeds0, contempt as int, z@, side) && best_score == two_ply_move_value(*p, lf0, 0, rl, seeds0, contempt as int, z@, side, best),
            completed_depth >= 1 ==> forall|m: (u8, u8)| movegen::legal_moves_spec(*p).contains(m) && #[trigger] settled_value(*p, m, rl, seeds0, contempt as int, z@, side) is Some ==> best_score >= settled_value(*p, m, rl, seeds0, contempt as int, z@, side).unwrap(),
            forall|d: int| #[trigger] depth_covered(*p, node_budget, time_ms as u128, d) ==> completed_depth >= d || depth <= d
                || best_score >= WIN - MAX_DEPTH,
        ensures
            forall|d: int| #[trigger] depth_covered(*p, node_budget, time_ms as u128, d) ==> completed_depth >= d || best_score
                >= WIN - MAX_DEPTH,
            completed_depth >= 1 ==> -score_bound(contempt) <= best_score <= score_bound(contempt),
            0 <= completed_depth <= MAX_DEPTH,
            movegen::legal_moves_spec(*p).contains(best),
            completed_depth == 0 ==> best == root@[0] && best_score == -INF,
            completed_depth >= 1 && contempt < WIN && win_exists ==> wins_at_once(*p, best),
            completed_depth >= 1 && contempt < WIN && win_exists ==> completed_depth == 1 && best_score == WIN,
            hb ==> completed_depth >= 1,
            !budget.aborted ==> completed_depth == MAX_DEPTH || best_score >= WIN - MAX_DEPTH,
            budget_ok(budget),
            budget.cap == node_budget,
            budget.time_ms == time_ms as u128,
            budget.nodes <= node_budget + 1,
            completed_depth == 1 && score_bound(contempt) == WIN ==> best_score == one_ply_value(*p, lf0, 0, rl, seeds0, contempt as int, z@, side) && best_score == ply_move_value(*p, lf0, 0, rl, seeds0, contempt as int, z@, side, best),
            completed_depth == 2 && score_bound(contempt) == WIN && keys_apart(*p, z@, side) ==> best_score == two_ply_value(*p, lf0, 0, rl, seeds0, contempt as int, z@, side) && best_score == two_ply_move_value(*p, lf0, 0, rl, seeds0, contempt as int, z@, side, best),
            completed_depth >= 1 ==> forall|m: (u8, u8)| movegen::legal_moves_spec(*p).contains(m) && #[trigger] settled_value(*p, m, rl, seeds0, contempt as int, z@, side) is Some ==> best_score >= settled_value(*p, m, rl, seeds0, contempt as int, z@, side).unwrap(),
        decreases MAX_DEPTH + 1 - depth,
    {
        budget.path.clear();
        budget.path.push(key);
        let slot = tt_slot(key);
        let e = tt[slot];
        let tt_mv = if e.flag != 0 && e.key == key {
            Some(e.mv)
        } else {
            None
        };
        let moves = if budget.ext {
            ordered_moves_ext(p, tt_mv, &budget.killers[0], &budget.history)
        } else {
            ordered_moves(p, tt_mv)
        };
        proof {
            movegen::lemma_legal_distinct(*p);
            lemma_same_elements_distinct(movegen::legal_moves_spec(*p), moves@);
        }
        let mut alpha: i32 = -2000000;
        let mut local_best = moves[0];
        let mut local_score: i32 = -2000000;
        assert(moves@.contains(moves@[0]));
        let mut k: usize = 0;
        while k < moves.len()
            invariant_except_break
                !budget.aborted,
                budget.nodes <= budget.cap,
                forall|d: int| #[trigger] depth_covered(*p, node_budget, time_ms as u128, d) && depth <= d ==> !budget.aborted
                    && budget.nodes <= (depth - 1) * nl * nbound(depth - 2, pn) + k * nbound(depth - 1, pn),
                depth == 2 ==> forall|kk: u64| #[trigger] tt_holds(tt@, kk) ==> kk == key || exists|j: int| 0 <= j < k && kk == key_of(child_of(*p, moves@[j]), z@, side),
            invariant
                0 <= k <= moves@.len(),
                1 <= depth <= MAX_DEPTH,
                moves@.len() > 0,
                forall|m: (u8, u8)| moves@.contains(m) <==> movegen::legal_moves_spec(*p).contains(m),
                search_ready(*p, net, tb, node_budget, contempt),
                z@.len() == 17 * 63,
                tt_ok(tt@),
                depth == 1 ==> tt_empty(tt@),
                budget_ok(budget),
                budget.cap == node_budget,
                budget.contempt == contempt,
                budget.nodes <= budget.cap + NODE_SLACK / 2,
                alpha > i32::MIN,
                alpha >= local_score,
                local_score > i32::MIN || k == 0,
                movegen::legal_moves_spec(*p).contains(local_best),
                depth == 1 && contempt < WIN ==> local_score <= WIN,
                depth == 1 && contempt < WIN ==> (local_score == WIN <==> exists|j: int| 0 <= j < k && #[trigger] wins_at_once(*p, moves@[j])),
                depth == 1 && contempt < WIN && local_score == WIN ==> wins_at_once(*p, local_best),
                hb == depth_one_covered(*p, node_budget, time_ms as u128),
                q == qbound(piece_count(p.squares@, 63)),
                nl == movegen::legal_moves_spec(*p).len(),
                moves@.len() == nl,
                budget.time_ms == time_ms as u128,
                hb ==> completed_depth >= 1 || depth == 1,
                hb && depth == 1 ==> !budget.aborted && budget.nodes <= k * (1 + q),
                tt_within(tt@, score_bound(contempt)),
                alpha <= score_bound(contempt),
                k == 0 ==> local_score == -INF,
                k > 0 ==> -score_bound(contempt) <= local_score <= score_bound(contempt),
                pn == piece_count(p.squares@, 63),
                nl == moves@.len(),
                key == zkey_spec(p.squares@, p.turn, z@, side),
                rl == seq![key],
                z@.len() == 17 * 63,
                budget.rep_seed@ == seeds0,
                budget.path@ == rl,
                leaf_agrees(lf0, net, tb),
                alpha == local_score,
                moves@.no_duplicates(),
                depth == 2 && score_bound(contempt) == WIN && keys_apart(*p, z@, side) ==> forall|i: int| 0 <= i < k ==> local_score >= #[trigger] two_ply_move_value(*p, lf0, 0, rl, seeds0, contempt as int, z@, side, moves@[i]),
                depth == 2 && score_bound(contempt) == WIN && keys_apart(*p, z@, side) && k > 0 ==> local_score == two_ply_move_value(*p, lf0, 0, rl, seeds0, contempt as int, z@, side, local_best),
                forall|i: int| 0 <= i < k && #[trigger] settled_value(*p, moves@[i], rl, seeds0, contempt as int, z@, side) is Some ==> local_score >= settled_value(*p, moves@[i], rl, seeds0, contempt as int, z@, side).unwrap(),
                depth == 1 && score_bound(contempt) == WIN ==> forall|i: int| 0 <= i < k ==> local_score >= #[trigger] ply_move_value(*p, lf0, 0, rl, seeds0, contempt as int, z@, side, moves@[i]),
                depth == 1 && score_bound(contempt) == WIN && k > 0 ==> local_score == ply_move_value(*p, lf0, 0, rl, seeds0, contempt as int, z@, side, local_best),
            ensures
                forall|d: int| #[trigger] depth_covered(*p, node_budget, time_ms as u128, d) && depth <= d ==> !budget.aborted
                    && budget.nodes <= (depth - 1) * nl * nbound(depth - 2, pn) + moves@.len() * nbound(depth - 1, pn),
                tt_within(tt@, score_bound(contempt)),
                !budget.aborted ==> -score_bound(contempt) <= local_score <= score_bound(contempt),
                hb && depth == 1 ==> !budget.aborted,
                budget.nodes <= node_budget + 1,
                tt_ok(tt@),
                budget_ok(budget),
                budget.cap == node_budget,
                budget.contempt == contempt,
                movegen::legal_moves_spec(*p).contains(local_best),
                !budget.aborted ==> local_score > i32::MIN,
                !budget.aborted ==> budget.nodes <= budget.cap && k == moves@.len(),
                depth == 1 && contempt < WIN && !budget.aborted ==> (local_score == WIN <==> exists|j: int| 0 <= j < moves@.len() && #[trigger] wins_at_once(*p, moves@[j])),
                depth == 1 && contempt < WIN && local_score == WIN ==> wins_at_once(*p, local_best),
                depth == 2 && score_bound(contempt) == WIN && keys_apart(*p, z@, side) && !budget.aborted ==> (forall|i: int| 0 <= i < moves@.len() ==> local_score >= #[trigger] two_ply_move_value(*p, lf0, 0, rl, seeds0, contempt as int, z@, side, moves@[i])) && local_score == two_ply_move_value(*p, lf0, 0, rl, seeds0, contempt as int, z@, side, local_best),
                !budget.aborted ==> forall|i: int| 0 <= i < moves@.len() && #[trigger] settled_value(*p, moves@[i], rl, seeds0, contempt as int, z@, side) is Some ==> local_score >= settled_value(*p, moves@[i], rl, seeds0, contempt as int, z@, side).unwrap(),
                depth == 1 && score_bound(contempt) == WIN && !budget.aborted ==> (forall|i: int| 0 <= i < moves@.len() ==> local_score >= #[trigger] ply_move_value(*p, lf0, 0, rl, seeds0, contempt as int, z@, side, moves@[i])) && local_score == ply_move_value(*p, lf0, 0, rl, seeds0, contempt as int, z@, side, local_best),
            decreases moves@.len() - k,
        {
            let m = moves[k];
            proof {
                assert(moves@.contains(m));
                lemma_legal_move_facts(*p, m);
            }
            let child = make_move(p, m);
            proof {
                board::lemma_make_move_valid(*p, m, child);
                lemma_child_count(*p, m, child);
                lemma_qbound_mono(piece_count(child.squares@, 63), piece_count(p.squares@, 63));
                lemma_nbound_pieces(depth - 1, piece_count(child.squares@, 63), pn);
                if hb && depth == 1 {
                    assert((k + 1) * (1 + q) <= nl * (1 + q)) by (nonlinear_arith)
                        requires
                            k + 1 <= nl,
                            q >= 0,
                    ;
                    assert(k * (1 + q) + (1 + q) == (k + 1) * (1 + q)) by (nonlinear_arith);
                }
            }
            let ghost qsv = quiet_search_value(child, lf0, 1, rl, seeds0, contempt as int, z@, side);
            proof {
                lemma_wins_child(*p, m, child);
                lemma_child_of(*p, m, child);
                if depth == 1 {
                    lemma_tt_empty(tt@, zkey_spec(child.squares@, child.turn, z@, side));
                }
                if depth == 2 && score_bound(contempt) == WIN && keys_apart(*p, z@, side) {
                    assert(movegen::legal_moves_spec(*p).contains(m));
                    assert(!tt_holds(tt@, key_of(child, z@, side))) by {
                        if tt_holds(tt@, key_of(child, z@, side)) {
                            if key_of(child, z@, side) != key {
                                let j = choose|j: int| 0 <= j < k && key_of(child, z@, side) == key_of(child_of(*p, moves@[j]), z@, side);
                                assert(moves@.contains(moves@[j]));
                                assert(movegen::legal_moves_spec(*p).contains(moves@[j]));
                                assert(moves@[j] != m);
                            }
                        }
                    }
                    assert forall|m3: (u8, u8)| #[trigger] movegen::legal_moves_spec(child).contains(m3) implies !tt_holds(
                        tt@,
                        zkey_spec(child_of(child, m3).squares@, child_of(child, m3).turn, z@, side),
                    ) by {
                        let g = key_of(child_of(child, m3), z@, side);
                        if tt_holds(tt@, g) {
                            if g != key {
                                let j = choose|j: int| 0 <= j < k && g == key_of(child_of(*p, moves@[j]), z@, side);
                                assert(moves@.contains(moves@[j]));
                                assert(movegen::legal_moves_spec(*p).contains(moves@[j]));
                            }
                        }
                    }
                    assert(fresh_near(tt@, child, z@, side));
                }
            }
            let val = if m.1 == opp_den(p.turn) || !color_has_pieces(&child, child.turn) {
                proof {
                    assert(wins_at_once(*p, m));
                }
                1000000
            } else if child.progress >= PROGRESS_LIMIT {
                0
            } else {
                let ghost tt0 = tt@;
                proof {
                    lemma_leaf_fn(net, tb);
                }
                let v = negamax(
                    &child,
                    net,
                    tb,
                    depth - 1,
                    -2000000,
                    -alpha,
                    1,
                    &z,
                    side,
                    &mut tt,
                    &mut budget,
                    clock,
                    Ghost(lf0),
                );
                proof {
                    if depth == 2 && score_bound(contempt) == WIN && keys_apart(*p, z@, side) && !budget.aborted {
                        let psv = ply_search_value(child, lf0, 1, rl, seeds0, contempt as int, z@, side);
                        assert(window_ok(psv, -INF as int, -alpha as int, v as int));
                        lemma_window_neg(two_ply_move_value(*p, lf0, 0, rl, seeds0, contempt as int, z@, side, m), alpha as int, INF as int, -v as int);
                    }
                    if depth == 2 {
                        assert forall|kk: u64| #[trigger] tt_holds(tt@, kk) implies kk == key || exists|j: int| 0 <= j < k + 1 && kk == key_of(child_of(*p, moves@[j]), z@, side) by {
                            if !tt_holds(tt0, kk) {
                                assert(kk == key_of(child_of(*p, moves@[k as int]), z@, side));
                            }
                        }
                    }
                }
                proof {
                    if depth == 1 && score_bound(contempt) == WIN && !budget.aborted {
                        // STEP

                        assert(window_ok(qsv, -INF as int, -alpha as int, v as int));
                        lemma_window_neg(ply_move_value(*p, lf0, 0, rl, seeds0, contempt as int, z@, side, m), alpha as int, INF as int, -v as int);
                    }
                }
                proof {
                    if depth == 1 && contempt < WIN {
                        assert(tt@ == tt0);
                    }
                }
                -v
            };
            proof {
                if depth == 1 && contempt < WIN {
                    assert(val < WIN || wins_at_once(*p, m));
                    assert(val == WIN <==> wins_at_once(*p, m));
                }
            }
            proof {
                let base = (depth - 1) * nl * nbound(depth - 2, pn);
                let nbk = nbound(depth - 1, pn);
                assert forall|d: int| #[trigger] depth_covered(*p, node_budget, time_ms as u128, d) && depth <= d implies !budget.aborted
                    && budget.nodes <= base + (k + 1) * nbk by {
                    lemma_search_nodes_step(nl as int, depth as int, d, pn);
                    lemma_nbound_depth(0, depth - 1, pn);
                    assert((k + 1) * nbk <= nl * nbk) by (nonlinear_arith)
                        requires
                            k + 1 <= nl,
                            nbk >= 1,
                    ;
                    assert(k * nbk + nbk == (k + 1) * nbk) by (nonlinear_arith);
                }
            }
            if budget.aborted {
                break;
            }
            proof {
                assert(settled_value(*p, moves@[k as int], rl, seeds0, contempt as int, z@, side) == settled_value(*p, m, rl, seeds0, contempt as int, z@, side));
                if settled_value(*p, m, rl, seeds0, contempt as int, z@, side) is Some {
                    assert(val == settled_value(*p, m, rl, seeds0, contempt as int, z@, side).unwrap());
                }
            }
            proof {
                if depth == 2 && score_bound(contempt) == WIN && keys_apart(*p, z@, side) {
                    assert(window_ok(two_ply_move_value(*p, lf0, 0, rl, seeds0, contempt as int, z@, side, m), alpha as int, INF as int, val as int));
                    assert(two_ply_move_value(*p, lf0, 0, rl, seeds0, contempt as int, z@, side, moves@[k as int]) == two_ply_move_value(*p, lf0, 0, rl, seeds0, contempt as int, z@, side, m));
                }
                if depth == 2 {
                    assert forall|kk: u64| #[trigger] tt_holds(tt@, kk) implies kk == key || exists|j: int| 0 <= j < k + 1 && kk == key_of(child_of(*p, moves@[j]), z@, side) by {
                        if kk != key && !(exists|j: int| 0 <= j < k && kk == key_of(child_of(*p, moves@[j]), z@, side)) {
                            assert(kk == key_of(child_of(*p, moves@[k as int]), z@, side));
                        }
                    }
                }
            }
            proof {
                if depth == 1 && score_bound(contempt) == WIN {
                    assert(window_ok(ply_move_value(*p, lf0, 0, rl, seeds0, contempt as int, z@, side, m), alpha as int, INF as int, val as int));
                    assert(ply_move_value(*p, lf0, 0, rl, seeds0, contempt as int, z@, side, moves@[k as int]) == ply_move_value(*p, lf0, 0, rl, seeds0, contempt as int, z@, side, m));
                }
            }
            if val > local_score {
                local_score = val;
                local_best = m;
            }
            if val > alpha {
                alpha = val;
            }
            k += 1;
        }
        proof {
            if depth == 1 && score_bound(contempt) == WIN && !budget.aborted {
                let lm = movegen::legal_moves_spec(*p);
                lemma_ply_max(*p, lf0, 0, rl, seeds0, contempt as int, z@, side, lm.len() as int);
                let j = choose|j: int| 0 <= j < lm.len() && one_ply_value(*p, lf0, 0, rl, seeds0, contempt as int, z@, side) == #[trigger] ply_move_value(*p, lf0, 0, rl, seeds0, contempt as int, z@, side, lm[j]);
                assert(lm.contains(lm[j]));
                assert(moves@.contains(lm[j]));
                let i = choose|i: int| 0 <= i < moves@.len() && moves@[i] == lm[j];
                assert(local_score >= ply_move_value(*p, lf0, 0, rl, seeds0, contempt as int, z@, side, moves@[i]));
                let j2 = choose|j2: int| 0 <= j2 < lm.len() && lm[j2] == local_best;
                assert(ply_move_value(*p, lf0, 0, rl, seeds0, contempt as int, z@, side, lm[j2]) <= one_ply_value(*p, lf0, 0, rl, seeds0, contempt as int, z@, side));
            }
        }
        if budget.aborted {
            break;
        }
        proof {
            assert forall|m: (u8, u8)| movegen::legal_moves_spec(*p).contains(m) && #[trigger] settled_value(*p, m, rl, seeds0, contempt as int, z@, side) is Some implies local_score >= settled_value(*p, m, rl, seeds0, contempt as int, z@, side).unwrap() by {
                assert(moves@.contains(m));
                let i = choose|i: int| 0 <= i < moves@.len() && moves@[i] == m;
                assert(settled_value(*p, moves@[i], rl, seeds0, contempt as int, z@, side) is Some);
            }
        }
        proof {
            if depth == 2 && score_bound(contempt) == WIN && keys_apart(*p, z@, side) && !budget.aborted {
                let lm = movegen::legal_moves_spec(*p);
                lemma_two_ply_max(*p, lf0, 0, rl, seeds0, contempt as int, z@, side, lm.len() as int);
                let j = choose|j: int| 0 <= j < lm.len() && two_ply_value(*p, lf0, 0, rl, seeds0, contempt as int, z@, side) == #[trigger] two_ply_move_value(*p, lf0, 0, rl, seeds0, contempt as int, z@, side, lm[j]);
                assert(lm.contains(lm[j]));
                assert(moves@.contains(lm[j]));
                let i = choose|i: int| 0 <= i < moves@.len() && moves@[i] == lm[j];
                assert(local_score >= two_ply_move_value(*p, lf0, 0, rl, seeds0, contempt as int, z@, side, moves@[i]));
                let j2 = choose|j2: int| 0 <= j2 < lm.len() && lm[j2] == local_best;
                assert(two_ply_move_value(*p, lf0, 0, rl, seeds0, contempt as int, z@, side, lm[j2]) <= two_ply_value(*p, lf0, 0, rl, seeds0, contempt as int, z@, side));
            }
        }
        best = local_best;
        best_score = local_score;
        completed_depth = depth;
        let ghost tt_pre = tt@;
        tt.set(slot, TtEntry { key, depth, value: local_score, flag: 1, mv: local_best });
        proof {
            if depth == 1 {
                assert forall|kk: u64| #[trigger] tt_holds(tt@, kk) implies kk == key by {
                    let i = choose|i: int| 0 <= i < tt@.len() && #[trigger] tt@[i].flag != 0 && tt@[i].key == kk;
                    if i != slot {
                        assert(tt_pre[i] == tt@[i]);
                        assert(tt_pre[i].flag == 0);
                    }
                }
            }
        }
        if local_score >= 1000000 - MAX_DEPTH {
            proof {
                if depth == 1 && contempt < WIN && win_exists {
                    let m = choose|m: (u8, u8)| movegen::legal_moves_spec(*p).contains(m) && #[trigger] wins_at_once(*p, m);
                    assert(moves@.contains(m));
                    let j = choose|j: int| 0 <= j < moves@.len() && moves@[j] == m;
                    assert(wins_at_once(*p, moves@[j]));
                }
            }
            break;
        }
        proof {
            if depth == 1 && contempt < WIN && win_exists {
                let m = choose|m: (u8, u8)| movegen::legal_moves_spec(*p).contains(m) && #[trigger] wins_at_once(*p, m);
                assert(moves@.contains(m));
                let j = choose|j: int| 0 <= j < moves@.len() && moves@[j] == m;
                assert(wins_at_once(*p, moves@[j]));
            }
        }
        proof {
            assert forall|d: int| #[trigger] depth_covered(*p, node_budget, time_ms as u128, d) && depth + 1 <= d implies !budget.aborted
                && budget.nodes <= depth * nl * nbound(depth - 1, pn) by {
                lemma_search_nodes_step(nl as int, depth as int, d, pn);
            }
        }
        depth += 1;
    }
    proof {
        assert(rl == root_line(*p));
        assert(seeds0 == seed_keys(rep_fens@));
    }
    (best, best_score, SearchStats { nodes: budget.nodes, depth: completed_depth })
}

/// The handcrafted evaluation as a leaf evaluator.
pub(crate) fn hand_leaf(q: &Parsed) -> (v: i32)
    ensures
        v == eval::eval_sum(*q, 63),
        -LEAF_BOUND <= v <= LEAF_BOUND,
{
    eval_hand(q)
}

/// Like `best_move_scored_stats`, without the consumption report.
pub fn best_move_scored_ext<L: Fn(&Parsed) -> i32, K: Clock>(
    p: &Parsed,
    net: Option<&L>,
    tb: Option<&Store>,
    node_budget: u64,
    time_ms: u64,
    rep_fens: &[String],
    contempt: i32,
    ext: bool,
    clock: &K,
) -> (r: ((u8, u8), i32))
    requires
        search_ready(*p, net, tb, node_budget, contempt),
    ensures
        movegen::legal_moves_spec(*p).len() == 0 ==> r.0 == (255u8, 255u8) && r.1 == -WIN,
        movegen::legal_moves_spec(*p).len() > 0 ==> movegen::legal_moves_spec(*p).contains(r.0),
        depth_one_covered(*p, node_budget, time_ms as u128) && contempt < WIN && win_available(*p) ==> wins_at_once(
            *p,
            r.0,
        ) && r.1 == WIN,
        movegen::legal_moves_spec(*p).len() > 0 && r.1 != -INF ==> forall|m: (u8, u8)|
            movegen::legal_moves_spec(*p).contains(m) && #[trigger] root_settled_value(*p, rep_fens@, contempt as int, m) is Some ==> r.1
                >= root_settled_value(*p, rep_fens@, contempt as int, m).unwrap(),
{
    let (m, score, _) = best_move_scored_stats(p, net, tb, node_budget, time_ms, rep_fens, contempt, ext, clock);
    (m, score)
}

/// Iterative-deepening search with the search extensions on, a chosen leaf evaluator (None:
/// handcrafted) and an optional store probed at the leaves.
pub fn best_move_scored_full<L: Fn(&Parsed) -> i32, K: Clock>(
    p: &Parsed,
    net: Option<&L>,
    tb: Option<&Store>,
    node_budget: u64,
    time_ms: u64,
    rep_fens: &[String],
    contempt: i32,
    clock: &K,
) -> (r: ((u8, u8), i32))
    requires
        search_ready(*p, net, tb, node_budget, contempt),
    ensures
        movegen::legal_moves_spec(*p).len() == 0 ==> r.0 == (255u8, 255u8) && r.1 == -WIN,
        movegen::legal_moves_spec(*p).len() > 0 ==> movegen::legal_moves_spec(*p).contains(r.0),
        depth_one_covered(*p, node_budget, time_ms as u128) && contempt < WIN && win_available(*p) ==> wins_at_once(
            *p,
            r.0,
        ) && r.1 == WIN,
        movegen::legal_moves_spec(*p).len() > 0 && r.1 != -INF ==> forall|m: (u8, u8)|
            movegen::legal_moves_spec(*p).contains(m) && #[trigger] root_settled_value(*p, rep_fens@, contempt as int, m) is Some ==> r.1
                >= root_settled_value(*p, rep_fens@, contempt as int, m).unwrap(),
{
    best_move_scored_ext(p, net, tb, node_budget, time_ms, rep_fens, contempt, true, clock)
}

/// Best move and root score (side to move's view) with the handcrafted evaluation, no store,
/// no repetition history and no contempt.
pub fn best_move_scored<K: Clock>(p: &Parsed, node_budget: u64, time_ms: u64, clock: &K) -> (r: ((u8, u8), i32))
    requires
        position_ready(*p, node_budget),
    ensures
        movegen::legal_moves_spec(*p).len() == 0 ==> r.0 == (255u8, 255u8) && r.1 == -WIN,
        movegen::legal_moves_spec(*p).len() > 0 ==> movegen::legal_moves_spec(*p).contains(r.0),
        depth_one_covered(*p, node_budget, time_ms as u128) && win_available(*p) ==> wins_at_once(*p, r.0) && r.1 == WIN,
        movegen::legal_moves_spec(*p).len() > 0 && r.1 != -INF ==> forall|m: (u8, u8)|
            movegen::legal_moves_spec(*p).contains(m) && #[trigger] root_settled_value(*p, Seq::empty(), 0, m) is Some ==> r.1
                >= root_settled_value(*p, Seq::empty(), 0, m).unwrap(),
{
    let no_reps: Vec<String> = Vec::new();
    let r = best_move_scored_stats(p, Some(&hand_leaf), None, node_budget, time_ms, no_reps.as_slice(), 0, true, clock);
    assert(no_reps@ =~= Seq::<String>::empty());
    (r.0, r.1)
}

/// Best move by iterative-deepening search (handcrafted evaluation); (255, 255) when there is
/// no legal move.
pub fn best_move<K: Clock>(p: &Parsed, node_budget: u64, time_ms: u64, clock: &K) -> (m: (u8, u8))
    requires
        position_ready(*p, node_budget),
    ensures
        movegen::legal_moves_spec(*p).len() == 0 ==> m == (255u8, 255u8),
        movegen::legal_moves_spec(*p).len() > 0 ==> movegen::legal_moves_spec(*p).contains(m),
        depth_one_covered(*p, node_budget, time_ms as u128) && win_available(*p) ==> wins_at_once(*p, m),
{
    best_move_scored(p, node_budget, time_ms, clock).0
}

// ── Fixed-depth reference search ────────────────────────────────────────────

/// Room a line from `p` has before the rules must end it: each quiet move spends one step of the
/// no-progress clock, and each capture spends a piece (and resets the clock).
pub open spec fn line_room(p: Parsed) -> int {
    201 * piece_count(p.squares@, 63) + (PROGRESS_LIMIT - p.progress)
}

/// Longest line (in plies) that the rules allow from any position with a running clock.
pub const LINE_CAP: i32 = 13000;

/// A move leaves no more pieces than there were.
proof fn lemma_child_count(p: Parsed, m: (u8, u8), c: Parsed)
    requires
        m.0 < 63,
        m.1 < 63,
        m.0 != m.1,
        p.squares[m.0 as int] != 0,
        c.squares@ == board::moved_squares(p.squares@, m.0 as int, m.1 as int),
    ensures
        piece_count(c.squares@, 63) <= piece_count(p.squares@, 63),
{
    let s = p.squares@;
    if s[m.1 as int] != 0 {
        lemma_capture_count(p, m, c);
    } else {
        let s1 = s.update(m.0 as int, 0);
        lemma_piece_count_update(s, m.0 as int, 0, 63);
        lemma_piece_count_update(s1, m.1 as int, s[m.0 as int], 63);
    }
}

/// A legal move spends room: a quiet move a step of the clock, a capture a piece.
proof fn lemma_line_room_child(p: Parsed, m: (u8, u8), c: Parsed)
    requires
        m.0 < 63,
        m.1 < 63,
        m.0 != m.1,
        p.squares[m.0 as int] != 0,
        p.progress < PROGRESS_LIMIT,
        c.squares@ == board::moved_squares(p.squares@, m.0 as int, m.1 as int),
        c.progress == (if p.squares[m.1 as int] != 0 {
            0
        } else {
            p.progress + 1
        }),
    ensures
        line_room(c) < line_room(p),
{
    let s = p.squares@;
    if s[m.1 as int] != 0 {
        lemma_capture_count(p, m, c);
    } else {
        let s1 = s.update(m.0 as int, 0);
        lemma_piece_count_update(s, m.0 as int, 0, 63);
        lemma_piece_count_update(s1, m.1 as int, s[m.0 as int], 63);
    }
}

proof fn lemma_line_room_bound(p: Parsed)
    requires
        p.progress < PROGRESS_LIMIT,
    ensures
        1 <= line_room(p) <= 12863,
{
    lemma_piece_count_bound(p.squares@, 63);
}

// ── The fixed-depth search's value ──────────────────────────────────────────

/// `c` is the position after move `m` of `p`.
pub open spec fn is_after(p: Parsed, m: (u8, u8), c: Parsed) -> bool {
    &&& c.squares@ == board::moved_squares(p.squares@, m.0 as int, m.1 as int)
    &&& c.turn == 1 - p.turn
    &&& c.progress == (if p.squares[m.1 as int] != 0 {
        0
    } else {
        p.progress + 1
    })
    &&& c.movenum == (if p.turn == 1 {
        p.movenum + 1
    } else {
        p.movenum as int
    })
}

/// The position after move `m` of `p`.
pub open spec fn after_move(p: Parsed, m: (u8, u8)) -> Parsed {
    choose|c: Parsed| is_after(p, m, c)
}

/// Value of a leaf of the fixed-depth search at `ply`: lost when the side to move has no move,
/// else the handcrafted evaluation.
pub open spec fn leaf_value(p: Parsed, ply: int) -> int {
    if movegen::legal_moves_spec(p).len() == 0 {
        -(WIN - ply)
    } else {
        eval::eval_sum(p, 63)
    }
}

/// Negamax value of move `m` of `p` at `ply` with `depth` plies left: a mate score when it
/// enters the den or takes the last enemy piece, zero when it runs the move clock out, else the
/// negated value of the position after it, searched one ply less deep.
pub open spec fn move_value(p: Parsed, m: (u8, u8), depth: int, ply: int) -> int
    decreases depth, 0int,
{
    let c = after_move(p, m);
    if m.1 == opp_den(p.turn) || !status::has_pieces(c, c.turn) {
        WIN - ply
    } else if c.progress >= PROGRESS_LIMIT {
        0
    } else if depth <= 1 {
        -leaf_value(c, ply + 1)
    } else {
        -fixed_value(c, depth - 1, ply + 1)
    }
}

/// Greatest value of the moves `ms` of `p` (`-INF` when there is none).
pub open spec fn best_value(p: Parsed, ms: Seq<(u8, u8)>, depth: int, ply: int) -> int
    decreases depth, ms.len() + 1,
{
    if ms.len() == 0 {
        -INF as int
    } else if ms.len() == 1 {
        move_value(p, ms[0], depth, ply)
    } else {
        let a = best_value(p, ms.drop_last(), depth, ply);
        let b = move_value(p, ms.last(), depth, ply);
        if a >= b {
            a
        } else {
            b
        }
    }
}

/// Negamax value of `p` at `ply` searched `depth` plies deep with the handcrafted evaluation:
/// the value of the best legal move, a leaf's value when no ply is left or no move exists.
pub open spec fn fixed_value(p: Parsed, depth: int, ply: int) -> int
    decreases depth, movegen::legal_moves_spec(p).len() + 2,
{
    if movegen::legal_moves_spec(p).len() == 0 || depth <= 0 {
        leaf_value(p, ply)
    } else {
        best_value(p, movegen::legal_moves_spec(p), depth, ply)
    }
}

/// The position after a move is the one that `make_move` gives.
proof fn lemma_after_move(p: Parsed, m: (u8, u8), c: Parsed)
    requires
        is_after(p, m, c),
    ensures
        after_move(p, m) == c,
{
    let c2 = after_move(p, m);
    assert(is_after(p, m, c2));
    assert(c2.squares =~= c.squares) by {
        broadcast use vstd::array::group_array_axioms;
        assert forall|s: int| 0 <= s < 63 implies c2.squares[s] == c.squares[s] by {
            assert(c2.squares@[s] == c.squares@[s]);
        }
    }
}

/// Every move of `ms` is worth at most their best value.
proof fn lemma_best_upper(p: Parsed, ms: Seq<(u8, u8)>, depth: int, ply: int)
    ensures
        forall|i: int| 0 <= i < ms.len() ==> move_value(p, #[trigger] ms[i], depth, ply) <= best_value(p, ms, depth, ply),
    decreases ms.len(),
{
    if ms.len() > 1 {
        lemma_best_upper(p, ms.drop_last(), depth, ply);
        assert forall|i: int| 0 <= i < ms.len() implies move_value(p, #[trigger] ms[i], depth, ply) <= best_value(p, ms, depth, ply) by {
            if i < ms.len() - 1 {
                assert(ms.drop_last()[i] == ms[i]);
            }
        }
    }
}

/// The best value of a nonempty list of moves is the value of one of them.
proof fn lemma_best_attained(p: Parsed, ms: Seq<(u8, u8)>, depth: int, ply: int)
    requires
        ms.len() > 0,
    ensures
        exists|i: int| 0 <= i < ms.len() && best_value(p, ms, depth, ply) == move_value(p, #[trigger] ms[i], depth, ply),
    decreases ms.len(),
{
    if ms.len() == 1 {
        assert(best_value(p, ms, depth, ply) == move_value(p, ms[0], depth, ply));
    } else {
        let a = best_value(p, ms.drop_last(), depth, ply);
        let b = move_value(p, ms.last(), depth, ply);
        if a >= b {
            lemma_best_attained(p, ms.drop_last(), depth, ply);
            let i = choose|i: int| 0 <= i < ms.drop_last().len() && a == move_value(p, #[trigger] ms.drop_last()[i], depth, ply);
            assert(ms.drop_last()[i] == ms[i]);
        } else {
            assert(best_value(p, ms, depth, ply) == move_value(p, ms[ms.len() - 1], depth, ply));
        }
    }
}

/// Two lists of the same moves have the same best value.
proof fn lemma_best_same(p: Parsed, s1: Seq<(u8, u8)>, s2: Seq<(u8, u8)>, depth: int, ply: int)
    requires
        forall|m: (u8, u8)| s1.contains(m) <==> s2.contains(m),
    ensures
        best_value(p, s1, depth, ply) == best_value(p, s2, depth, ply),
{
    lemma_best_upper(p, s1, depth, ply);
    lemma_best_upper(p, s2, depth, ply);
    if s1.len() > 0 {
        lemma_best_attained(p, s1, depth, ply);
        let i = choose|i: int| 0 <= i < s1.len() && best_value(p, s1, depth, ply) == move_value(p, #[trigger] s1[i], depth, ply);
        assert(s1.contains(s1[i]));
        let j = choose|j: int| 0 <= j < s2.len() && s2[j] == s1[i];
        assert(s2.len() > 0);
        lemma_best_attained(p, s2, depth, ply);
        let k = choose|k: int| 0 <= k < s2.len() && best_value(p, s2, depth, ply) == move_value(p, #[trigger] s2[k], depth, ply);
        assert(s2.contains(s2[k]));
        let l = choose|l: int| 0 <= l < s1.len() && s1[l] == s2[k];
        assert(move_value(p, s1[l], depth, ply) <= best_value(p, s1, depth, ply));
        assert(move_value(p, s2[j], depth, ply) <= best_value(p, s2, depth, ply));
    } else if s2.len() > 0 {
        assert(s2.contains(s2[0]));
    }
}

/// A list's best value is at least that of any of its nonempty prefixes.
proof fn lemma_best_prefix(p: Parsed, ms: Seq<(u8, u8)>, k: int, depth: int, ply: int)
    requires
        0 < k <= ms.len(),
    ensures
        best_value(p, ms.take(k), depth, ply) <= best_value(p, ms, depth, ply),
{
    lemma_best_upper(p, ms, depth, ply);
    lemma_best_attained(p, ms.take(k), depth, ply);
    let i = choose|i: int| 0 <= i < ms.take(k).len() && best_value(p, ms.take(k), depth, ply) == move_value(p, #[trigger] ms.take(k)[i], depth, ply);
    assert(ms.take(k)[i] == ms[i]);
}

/// Extending a prefix by one move takes the greater of the two values.
proof fn lemma_best_step(p: Parsed, ms: Seq<(u8, u8)>, k: int, depth: int, ply: int)
    requires
        0 <= k < ms.len(),
    ensures
        k == 0 ==> best_value(p, ms.take(k + 1), depth, ply) == move_value(p, ms[k], depth, ply),
        k > 0 ==> best_value(p, ms.take(k + 1), depth, ply) == (if best_value(p, ms.take(k), depth, ply) >= move_value(p, ms[k], depth, ply) {
            best_value(p, ms.take(k), depth, ply)
        } else {
            move_value(p, ms[k], depth, ply)
        }),
{
    assert(ms.take(k + 1).drop_last() =~= ms.take(k));
    assert(ms.take(k + 1).last() == ms[k]);
    assert(ms.take(k + 1)[0] == ms[0]);
}

/// The value of a move, read off the position that `make_move` gives.
proof fn lemma_move_value_of(p: Parsed, m: (u8, u8), depth: int, ply: int, c: Parsed)
    requires
        is_after(p, m, c),
    ensures
        move_value(p, m, depth, ply) == (if m.1 == opp_den(p.turn) || !status::has_pieces(c, c.turn) {
            WIN - ply
        } else if c.progress >= PROGRESS_LIMIT {
            0
        } else {
            -fixed_value(c, depth - 1, ply + 1)
        }),
{
    lemma_after_move(p, m, c);
}

/// Plain fixed-depth negamax with alpha-beta: capture-ordered, handcrafted leaf evaluation, no
/// table, no iterative deepening, no capture search. Scores lie within the mate scores of `ply`,
/// and the result bounds the negamax value as a fail-soft window search does: exact inside the
/// window, an upper bound at or below `alpha`, a lower bound at or above `beta`.
fn nmx_fixed(p: &Parsed, depth: i32, alpha: i32, beta: i32, ply: i32) -> (r: i32)
    requires
        board::valid_position(*p),
        p.progress < PROGRESS_LIMIT,
        1 <= ply,
        ply + line_room(*p) <= LINE_CAP,
        p.movenum + line_room(*p) <= u32::MAX,
        alpha > i32::MIN,
        beta > i32::MIN,
        alpha < beta,
    ensures
        -(WIN - ply) <= r <= WIN - ply,
        alpha < r ==> r <= fixed_value(*p, depth as int, ply as int),
        r < beta ==> fixed_value(*p, depth as int, ply as int) <= r,
    decreases depth,
{
    let moves = ordered_moves(p, None);
    if moves.len() == 0 {
        return -(1000000 - ply);
    }
    if depth <= 0 {
        return eval_hand(p);
    }
    let ghost alpha0 = alpha;
    let ghost d = depth as int;
    let ghost pl = ply as int;
    let mut alpha = alpha;
    let mut best: i32 = -2000000;
    let mut k: usize = 0;
    proof {
        lemma_line_room_bound(*p);
    }
    while k < moves.len()
        invariant_except_break
            alpha < beta,
        invariant
            0 <= k <= moves@.len(),
            forall|m: (u8, u8)| moves@.contains(m) <==> movegen::legal_moves_spec(*p).contains(m),
            board::valid_position(*p),
            p.progress < PROGRESS_LIMIT,
            1 <= ply,
            ply + line_room(*p) <= LINE_CAP,
            p.movenum + line_room(*p) <= u32::MAX,
            1 <= line_room(*p),
            depth > 0,
            d == depth,
            pl == ply,
            alpha > i32::MIN,
            beta > i32::MIN,
            alpha0 < beta,
            k == 0 ==> best == -INF && alpha == alpha0,
            k > 0 ==> -(WIN - ply) <= best <= WIN - ply,
            k > 0 ==> alpha == (if alpha0 >= best { alpha0 } else { best }),
            k > 0 && best > alpha0 ==> best <= best_value(*p, moves@.take(k as int), d, pl),
            k > 0 && best < beta ==> best_value(*p, moves@.take(k as int), d, pl) <= best,
            moves@.len() > 0,
        ensures
            k > 0,
            k == moves@.len() || best >= beta,
        decreases moves@.len() - k,
    {
        let m = moves[k];
        proof {
            assert(moves@.contains(m));
            lemma_legal_move_facts(*p, m);
        }
        let child = make_move(p, m);
        proof {
            board::lemma_make_move_valid(*p, m, child);
            lemma_line_room_child(*p, m, child);
            lemma_move_value_of(*p, m, d, pl, child);
            lemma_best_step(*p, moves@, k as int, d, pl);
        }
        let ghost alpha_k = alpha;
        let val = if m.1 == opp_den(p.turn) || !color_has_pieces(&child, child.turn) {
            1000000 - ply
        } else if child.progress >= PROGRESS_LIMIT {
            0
        } else {
            let v = nmx_fixed(&child, depth - 1, -beta, -alpha, ply + 1);
            -v
        };
        assert(val <= alpha_k ==> move_value(*p, m, d, pl) <= val);
        assert(val >= beta ==> move_value(*p, m, d, pl) >= val);
        assert(alpha_k < val < beta ==> move_value(*p, m, d, pl) == val);
        if val > best {
            best = val;
        }
        if best > alpha {
            alpha = best;
        }
        k += 1;
        if alpha >= beta {
            break;
        }
    }
    proof {
        lemma_best_prefix(*p, moves@, k as int, d, pl);
        lemma_best_same(*p, moves@, movegen::legal_moves_spec(*p), d, pl);
        assert(moves@.take(moves@.len() as int) =~= moves@);
    }
    best
}

/// Best move of the plain fixed-depth search (`depth` plies, handcrafted evaluation);
/// (255, 255) when there is no legal move. The move chosen has the greatest negamax value of
/// all legal moves, so a move that wins at once is chosen when there is one.
pub fn best_move_fixed_depth(p: &Parsed, depth: i32) -> (m: (u8, u8))
    requires
        board::valid_position(*p),
        p.progress < u32::MAX,
        p.movenum + LINE_CAP <= u32::MAX,
        depth > i32::MIN,
    ensures
        movegen::legal_moves_spec(*p).len() == 0 ==> m == (255u8, 255u8),
        movegen::legal_moves_spec(*p).len() > 0 ==> movegen::legal_moves_spec(*p).contains(m),
        forall|w: (u8, u8)| #[trigger] movegen::legal_moves_spec(*p).contains(w)
            ==> move_value(*p, w, depth as int, 0) <= move_value(*p, m, depth as int, 0),
        (exists|w: (u8, u8)| movegen::legal_moves_spec(*p).contains(w) && #[trigger] wins_at_once(*p, w))
            ==> wins_at_once(*p, m),
{
    let moves = ordered_moves(p, None);
    if moves.len() == 0 {
        return (255, 255);
    }
    assert(moves@.contains(moves@[0]));
    let ghost d = depth as int;
    let mut best = moves[0];
    let mut best_score: i32 = -2000000;
    let mut alpha: i32 = -2000000;
    let mut k: usize = 0;
    while k < moves.len()
        invariant
            0 <= k <= moves@.len(),
            forall|w: (u8, u8)| moves@.contains(w) <==> movegen::legal_moves_spec(*p).contains(w),
            board::valid_position(*p),
            p.progress < u32::MAX,
            p.movenum + LINE_CAP <= u32::MAX,
            depth > i32::MIN,
            d == depth,
            moves@.contains(best),
            alpha == best_score,
            -INF <= best_score <= WIN,
            k == 0 ==> best == moves@[0] && best_score == -INF,
            k > 0 ==> best_score == move_value(*p, best, d, 0),
            forall|j: int| 0 <= j < k ==> move_value(*p, #[trigger] moves@[j], d, 0) <= best_score,
            best_score == WIN <==> exists|j: int| 0 <= j < k && #[trigger] wins_at_once(*p, moves@[j]),
            best_score == WIN ==> wins_at_once(*p, best),
        decreases moves@.len() - k,
    {
        let m = moves[k];
        proof {
            assert(moves@.contains(m));
            lemma_legal_move_facts(*p, m);
        }
        let child = make_move(p, m);
        proof {
            board::lemma_make_move_valid(*p, m, child);
            lemma_move_value_of(*p, m, d, 0, child);
        }
        let val = if m.1 == opp_den(p.turn) || !color_has_pieces(&child, child.turn) {
            1000000
        } else if child.progress >= PROGRESS_LIMIT {
            0
        } else {
            proof {
                lemma_line_room_bound(child);
            }
            let v = nmx_fixed(&child, depth - 1, -2000000, -alpha, 1);
            -v
        };
        assert(val == WIN <==> wins_at_once(*p, m));
        assert(move_value(*p, m, d, 0) <= val);
        assert(val > alpha ==> move_value(*p, m, d, 0) == val);
        if val > best_score {
            best_score = val;
            best = m;
        }
        alpha = best_score;
        k += 1;
    }
    proof {
        if exists|w: (u8, u8)| movegen::legal_moves_spec(*p).contains(w) && #[trigger] wins_at_once(*p, w) {
            let w = choose|w: (u8, u8)| movegen::legal_moves_spec(*p).contains(w) && #[trigger] wins_at_once(*p, w);
            assert(moves@.contains(w));
            let j = choose|j: int| 0 <= j < moves@.len() && moves@[j] == w;
            assert(wins_at_once(*p, moves@[j]));
        }
        assert forall|w: (u8, u8)| #[trigger] movegen::legal_moves_spec(*p).contains(w)
            implies move_value(*p, w, d, 0) <= move_value(*p, best, d, 0) by {
            assert(moves@.contains(w));
            let j = choose|j: int| 0 <= j < moves@.len() && moves@[j] == w;
            assert(move_value(*p, moves@[j], d, 0) <= best_score);
        }
    }
    best
}

// ── Incremental root analysis ───────────────────────────────────────────────

/// A listing of every legal move of `p` with a value, best first (ties by move).
pub open spec fn lines_ok(p: Parsed, lines: Seq<(i32, (u8, u8))>) -> bool {
    &&& lines.len() == movegen::legal_moves_spec(p).len()
    &&& forall|m: (u8, u8)|
        movegen::legal_moves_spec(p).contains(m) <==> exists|i: int| 0 <= i < lines.len() && #[trigger] lines[i].1 == m
    &&& sorted_desc(lines)
}

/// Every line's value lies within `b`.
pub open spec fn values_within(lines: Seq<(i32, (u8, u8))>, b: int) -> bool {
    forall|i: int| 0 <= i < lines.len() ==> -b <= #[trigger] lines[i].0 <= b
}

/// Every line whose move wins at once carries the value `WIN`.
pub open spec fn wins_valued(p: Parsed, lines: Seq<(i32, (u8, u8))>) -> bool {
    forall|i: int| 0 <= i < lines.len() && #[trigger] wins_at_once(p, lines[i].1) ==> lines[i].0 == WIN
}

/// Analysis of one position that keeps its table, keys and move-ordering heuristics across
/// calls; each call gets a node slice and publishes only fully completed depths.
pub struct RootAnalysisSession {
    p: Parsed,
    z: Vec<u64>,
    side: u64,
    key: u64,
    tt: Vec<TtEntry>,
    budget: Budget,
    completed: Vec<(i32, (u8, u8))>,
    depth_reached: i32,
    total_nodes: u64,
    finished: bool,
}

impl RootAnalysisSession {
    /// The session is consistent: its position can be searched, its tables are sized, and the
    /// published lines (once a depth completed) list every legal move best first.
    pub closed spec fn wf(&self) -> bool {
        &&& position_ready(self.p, 0)
        &&& self.z@.len() == 17 * 63
        &&& tt_ok(self.tt@)
        &&& self.budget.killers@.len() == KILLER_SLOTS
        &&& self.budget.history@.len() == HISTORY_LEN
        &&& self.budget.contempt == 0
        &&& self.budget.ext
        &&& 0 <= self.depth_reached <= MAX_DEPTH
        &&& self.depth_reached >= 1 ==> lines_ok(self.p, self.completed@)
        &&& self.depth_reached == 0 ==> self.completed@.len() == 0
        &&& self.finished && self.depth_reached == 0 ==> movegen::legal_moves_spec(self.p).len() == 0
        &&& self.depth_reached >= 1 ==> wins_valued(self.p, self.completed@)
        &&& tt_within(self.tt@, WIN as int)
        &&& self.depth_reached >= 1 ==> values_within(self.completed@, WIN as int)
        &&& self.z@ == zobrist_keys() && self.side == zobrist_side()
        &&& self.key == zkey_spec(self.p.squares@, self.p.turn, self.z@, self.side)
        &&& self.budget.rep_seed@.len() == 0
        &&& self.depth_reached == 0 ==> tt_empty(self.tt@)
        &&& self.depth_reached == 1 ==> forall|i: int|
            0 <= i < self.completed@.len() ==> #[trigger] self.completed@[i].0 == ply_move_value(
                self.p,
                hand_fn(),
                0,
                seq![self.key],
                Seq::empty(),
                0,
                self.z@,
                self.side,
                self.completed@[i].1,
            )
        &&& self.depth_reached >= 1 && self.completed@.len() > 0 && self.completed@[0].0 >= WIN - MAX_DEPTH ==> self.finished
    }

    /// The session has nothing left to search: a forced win was found, or there is no move.
    pub closed spec fn is_finished(&self) -> bool {
        self.finished || self.depth_reached >= MAX_DEPTH
    }

    /// In a consistent session, the lines of depth 1 carry each move's `analysis_first_value`,
    /// and lines that open with a forced win finish the session.
    pub proof fn lemma_published(&self)
        requires
            self.wf(),
        ensures
            self.depth_spec() == 1 ==> forall|i: int|
                0 <= i < self.lines().len() ==> #[trigger] self.lines()[i].0 == analysis_first_value(self.position(), self.lines()[i].1),
            self.depth_spec() >= 1 && self.lines().len() > 0 && self.lines()[0].0 >= WIN - MAX_DEPTH ==> self.is_finished(),
            self.depth_spec() == 1 ==> forall|i: int|
                0 <= i < self.lines().len() && !wins_at_once(self.position(), #[trigger] self.lines()[i].1) ==> self.lines()[i].0
                    < WIN,
            self.depth_spec() >= MAX_DEPTH ==> self.is_finished(),
    {
        assert(seed_keys(Seq::<String>::empty()) =~= Seq::<u64>::empty());
        assert(root_line(self.p) == seq![self.key]);
        assert forall|i: int|
            0 <= i < self.lines().len() && !wins_at_once(self.position(), #[trigger] self.lines()[i].1) implies (self.depth_spec()
            == 1 ==> self.lines()[i].0 < WIN) by {
            lemma_first_value_below_win(self.p, self.lines()[i].1);
        }
    }

    /// The time limit of each slice in milliseconds (0: none, the node budget alone).
    pub closed spec fn time_limit(&self) -> u128 {
        self.budget.time_ms
    }

    /// The analysed position.
    pub closed spec fn position(&self) -> Parsed {
        self.p
    }

    /// The last fully completed depth.
    pub closed spec fn depth_spec(&self) -> i32 {
        self.depth_reached
    }

    /// Nodes counted over all slices.
    pub closed spec fn total_spec(&self) -> u64 {
        self.total_nodes
    }

    /// The published lines of the last completed depth.
    pub closed spec fn lines(&self) -> Seq<(i32, (u8, u8))> {
        self.completed@
    }

    /// A new session on `p`; nothing is searched yet.
    pub fn new<K: Clock>(p: Parsed, time_ms: u64, clock: &K) -> (s: RootAnalysisSession)
        requires
            position_ready(p, 0),
        ensures
            s.wf(),
            s.position() == p,
            s.depth_spec() == 0,
            s.total_spec() == 0,
            s.lines().len() == 0,
            s.time_limit() == time_ms,
            !s.is_finished(),
    {
        let (z, side) = build_zobrist();
        let key = zkey(&p, &z, side);
        RootAnalysisSession {
            p,
            z,
            side,
            key,
            tt: new_tt(),
            budget: Budget {
                nodes: 0,
                cap: 1,
                start_ms: if time_ms > 0 {
                    clock.now_ms()
                } else {
                    0
                },
                time_ms: time_ms as u128,
                aborted: false,
                rep_seed: Vec::new(),
                path: Vec::new(),
                contempt: 0,
                killers: new_killers(),
                history: new_history(),
                ext: true,
            },
            completed: Vec::new(),
            depth_reached: 0,
            total_nodes: 0,
            finished: false,
        }
    }

    /// Searches on with a slice of `node_budget` nodes (at least one), continuing from the
    /// last completed depth, and returns the lines of the last completed depth as
    /// (from, to, value, depth), best first.
    #[verifier::spinoff_prover]
    #[verifier::rlimit(100)]
    pub fn advance<K: Clock>(&mut self, node_budget: u64, clock: &K) -> (r: Vec<(u8, u8, i32, i32)>)
        requires
            old(self).wf(),
            node_budget <= u64::MAX - NODE_SLACK,
        ensures
            final(self).wf(),
            final(self).position() == old(self).position(),
            old(self).depth_spec() <= final(self).depth_spec() <= MAX_DEPTH,
            r@.len() == final(self).lines().len(),
            forall|i: int|
                0 <= i < r@.len() ==> #[trigger] r@[i] == (
                    final(self).lines()[i].1.0,
                    final(self).lines()[i].1.1,
                    final(self).lines()[i].0,
                    final(self).depth_spec(),
                ),
            final(self).depth_spec() >= 1 ==> lines_ok(final(self).position(), final(self).lines()),
            final(self).depth_spec() == 0 ==> r@.len() == 0,
            final(self).depth_spec() == old(self).depth_spec() ==> final(self).lines() == old(self).lines(),
            old(self).total_spec() <= final(self).total_spec(),
            final(self).total_spec() <= old(self).total_spec() + (if node_budget == 0 {
                1
            } else {
                node_budget as int
            }),
            final(self).time_limit() == old(self).time_limit(),
            0 <= old(self).depth_spec() <= final(self).depth_spec(),
            final(self).depth_spec() >= 1 ==> wins_valued(final(self).position(), final(self).lines()),
            final(self).depth_spec() >= 1 ==> values_within(final(self).lines(), WIN as int),
            old(self).is_finished() ==> final(self).is_finished() && final(self).lines() == old(self).lines()
                && final(self).total_spec() == old(self).total_spec() && final(self).depth_spec() == old(self).depth_spec(),
            old(self).depth_spec() == 0 && depth_one_covered(old(self).position(), node_budget, old(self).time_limit())
                ==> final(self).depth_spec() >= 1,
            final(self).depth_spec() == 1 ==> forall|i: int|
                0 <= i < final(self).lines().len() ==> #[trigger] final(self).lines()[i].0 == analysis_first_value(
                    final(self).position(),
                    final(self).lines()[i].1,
                ),
            final(self).depth_spec() >= 1 && final(self).lines().len() > 0 && final(self).lines()[0].0 >= WIN - MAX_DEPTH
                ==> final(self).is_finished(),
            movegen::legal_moves_spec(final(self).position()).len() == 0 ==> final(self).is_finished(),
            old(self).depth_spec() == 0 && win_available(old(self).position()) ==> final(self).depth_spec() <= 1,
            final(self).depth_spec() == 1 ==> forall|i: int|
                0 <= i < final(self).lines().len() && !wins_at_once(final(self).position(), #[trigger] final(self).lines()[i].1)
                    ==> final(self).lines()[i].0 < WIN,
            final(self).depth_spec() >= MAX_DEPTH ==> final(self).is_finished(),
            old(self).time_limit() == 0 && !final(self).is_finished() ==> final(self).total_spec() == (if old(self).total_spec()
                + (if node_budget > 1 {
                node_budget as int
            } else {
                1
            }) > u64::MAX {
                u64::MAX as int
            } else {
                old(self).total_spec() + (if node_budget > 1 {
                    node_budget as int
                } else {
                    1
                })
            }),
    {
        let ghost q = qbound(piece_count(self.p.squares@, 63));
        let ghost nl = movegen::legal_moves_spec(self.p).len();
        let ghost h = self.depth_reached == 0 && depth_one_covered(self.p, node_budget, self.budget.time_ms);
        proof {
            lemma_qbound_mono(0, piece_count(self.p.squares@, 63));
            if h {
                assert(nl * (1 + q) >= 1 + q) by (nonlinear_arith)
                    requires
                        nl >= 1,
                        q >= 1,
                ;
            }
        }
        if self.finished || self.depth_reached >= MAX_DEPTH {
            proof {
                self.lemma_published();
            }
            return self.results();
        }
        let root = legal_moves(&self.p);
        if root.len() == 0 {
            self.finished = true;
            proof {
                self.lemma_published();
            }
            return Vec::new();
        }
        let cap = if node_budget > 1 {
            node_budget
        } else {
            1
        };
        self.budget.nodes = 0;
        self.budget.cap = cap;
        self.budget.start_ms = if self.budget.time_ms > 0 {
            clock.now_ms()
        } else {
            0
        };
        self.budget.aborted = false;
        self.budget.path.clear();
        let ghost rl = seq![self.key];
        let ghost e0 = Seq::<u64>::empty();
        proof {
            assert(self.budget.rep_seed@ == e0);
            assert(rl == root_line(self.p));
            assert(seed_keys(Seq::<String>::empty()) == e0);
        }
        let mut depth: i32 = self.depth_reached + 1;
        while depth <= MAX_DEPTH
            invariant_except_break
                !self.budget.aborted,
                self.budget.nodes <= cap,
                self.depth_reached < depth,
                depth == self.depth_reached + 1,
                !self.finished,
                old(self).depth_reached == 0 && win_available(self.p) ==> self.depth_reached == 0,
            invariant
                self.wf(),
                self.p == old(self).p,
                self.total_nodes == old(self).total_nodes,
                self.budget.time_ms == old(self).budget.time_ms,
                h == (old(self).depth_reached == 0 && depth_one_covered(old(self).p, node_budget, old(self).budget.time_ms)),
                q == qbound(piece_count(self.p.squares@, 63)),
                nl == movegen::legal_moves_spec(self.p).len(),
                h ==> cap == node_budget,
                h ==> self.depth_reached >= 1 || (depth == 1 && !self.budget.aborted && self.budget.nodes == 0),
                old(self).depth_reached <= self.depth_reached <= MAX_DEPTH,
                self.depth_reached == old(self).depth_reached ==> self.completed@ == old(self).completed@,
                self.depth_reached <= depth <= MAX_DEPTH + 1,
                root@ == movegen::legal_moves_spec(self.p),
                root@.len() > 0,
                budget_ok(self.budget),
                self.budget.cap == cap,
                1 <= cap <= u64::MAX - NODE_SLACK,
                self.budget.nodes <= cap + NODE_SLACK / 2,
                rl == seq![self.key] && e0 == Seq::<u64>::empty(),
            ensures
                h ==> self.depth_reached >= 1,
                self.budget.aborted || self.finished || self.depth_reached == MAX_DEPTH,
                old(self).depth_reached == 0 && win_available(self.p) ==> self.depth_reached <= 1,
            decreases MAX_DEPTH + 1 - depth,
        {
            self.budget.path.clear();
            self.budget.path.push(self.key);
            let slot = tt_slot(self.key);
            let e = self.tt[slot];
            let tt_mv = if e.flag != 0 && e.key == self.key {
                Some(e.mv)
            } else {
                None
            };
            let moves = ordered_moves_ext(&self.p, tt_mv, &self.budget.killers[0], &self.budget.history);
            let mut vals: Vec<(i32, (u8, u8))> = Vec::new();
            let mut k: usize = 0;
            while k < moves.len()
                invariant_except_break
                    !self.budget.aborted,
                    self.budget.nodes <= cap,
                invariant
                    0 <= k <= moves@.len(),
                    1 <= depth <= MAX_DEPTH,
                    forall|m: (u8, u8)| moves@.contains(m) <==> movegen::legal_moves_spec(self.p).contains(m),
                    moves@.len() == movegen::legal_moves_spec(self.p).len(),
                    self.wf(),
                    self.p == old(self).p,
                    self.total_nodes == old(self).total_nodes,
                    self.budget.time_ms == old(self).budget.time_ms,
                    h == (old(self).depth_reached == 0 && depth_one_covered(old(self).p, node_budget, old(self).budget.time_ms)),
                    q == qbound(piece_count(self.p.squares@, 63)),
                    nl == movegen::legal_moves_spec(self.p).len(),
                    h ==> cap == node_budget,
                    h && depth == 1 ==> !self.budget.aborted && self.budget.nodes <= k * (1 + q),
                    h ==> self.depth_reached >= 1 || depth == 1,
                    old(self).depth_reached <= self.depth_reached,
                    self.depth_reached == old(self).depth_reached ==> self.completed@ == old(self).completed@,
                    self.depth_reached < depth,
                    budget_ok(self.budget),
                    self.budget.cap == cap,
                    1 <= cap <= u64::MAX - NODE_SLACK,
                    self.budget.nodes <= cap + NODE_SLACK / 2,
                    vals@.len() == k,
                    forall|j: int| 0 <= j < k ==> #[trigger] vals@[j].1 == moves@[j],
                    forall|j: int| 0 <= j < k ==> #[trigger] vals@[j].0 > i32::MIN,
                    forall|j: int| 0 <= j < k && #[trigger] wins_at_once(self.p, vals@[j].1) ==> vals@[j].0 == WIN,
                    forall|j: int| 0 <= j < k ==> -WIN <= #[trigger] vals@[j].0 <= WIN,
                    depth == self.depth_reached + 1,
                    !self.finished,
                    self.budget.path@ == rl,
                    rl == seq![self.key],
                    e0 == Seq::<u64>::empty(),
                    depth == 1 ==> forall|j: int| 0 <= j < k ==> #[trigger] vals@[j].0 == ply_move_value(self.p, hand_fn(), 0, rl, e0, 0, self.z@, self.side, vals@[j].1),
                ensures
                    !self.budget.aborted ==> k == moves@.len() && self.budget.nodes <= cap,
                    h && depth == 1 ==> !self.budget.aborted,
                decreases moves@.len() - k,
            {
                let m = moves[k];
                proof {
                    assert(moves@.contains(m));
                    lemma_legal_move_facts(self.p, m);
                }
                let child = make_move(&self.p, m);
                proof {
                    board::lemma_make_move_valid(self.p, m, child);
                    lemma_child_count(self.p, m, child);
                    lemma_qbound_mono(piece_count(child.squares@, 63), piece_count(self.p.squares@, 63));
                    if h && depth == 1 {
                        assert((k + 1) * (1 + q) <= nl * (1 + q)) by (nonlinear_arith)
                            requires
                                k + 1 <= nl,
                                q >= 0,
                        ;
                        assert(k * (1 + q) + (1 + q) == (k + 1) * (1 + q)) by (nonlinear_arith);
                    }
                }
                let ghost bn = self.budget.nodes;
                let ghost qsv = quiet_search_value(child, hand_fn(), 1, rl, e0, 0, self.z@, self.side);
                proof {
                    lemma_wins_child(self.p, m, child);
                    lemma_child_of(self.p, m, child);
                    if depth == 1 {
                        lemma_tt_empty(self.tt@, zkey_spec(child.squares@, child.turn, self.z@, self.side));
                        assert(self.budget.rep_seed@ == e0);
                    }
                }
                let val = if m.1 == opp_den(self.p.turn) || !color_has_pieces(&child, child.turn) {
                    1000000
                } else if child.progress >= PROGRESS_LIMIT {
                    0
                } else {
                    proof {
                        lemma_hand_agrees();
                    }
                    let v = negamax(
                        &child,
                        Some(&hand_leaf),
                        None,
                        depth - 1,
                        -2000000,
                        2000000,
                        1,
                        &self.z,
                        self.side,
                        &mut self.tt,
                        &mut self.budget,
                        clock,
                        Ghost(hand_fn()),
                    );
                    proof {
                        if depth == 1 && !self.budget.aborted {
                            assert(window_ok(qsv, -INF as int, INF as int, v as int));
                            assert(v == qsv);
                        }
                    }
                    -v
                };
                if self.budget.aborted {
                    break;
                }
                proof {
                    if depth == 1 {
                        assert(val == ply_move_value(self.p, hand_fn(), 0, rl, e0, 0, self.z@, self.side, m));
                    }
                }
                vals.push((val, m));
                k += 1;
            }
            if self.budget.aborted {
                break;
            }
            let ghost vs = vals@;
            let sorted = sort_scored(vals);
            proof {
                let out = Seq::new(sorted@.len(), |i: int| sorted@[i].1);
                lemma_sorted_moves(moves@, vs, sorted@, out);
                assert forall|m: (u8, u8)| movegen::legal_moves_spec(self.p).contains(m) <==> exists|i: int|
                    0 <= i < sorted@.len() && #[trigger] sorted@[i].1 == m by {
                    if movegen::legal_moves_spec(self.p).contains(m) {
                        assert(moves@.contains(m));
                        assert(out.contains(m));
                        let i = choose|i: int| 0 <= i < out.len() && out[i] == m;
                        assert(sorted@[i].1 == m);
                    }
                    if exists|i: int| 0 <= i < sorted@.len() && #[trigger] sorted@[i].1 == m {
                        let i = choose|i: int| 0 <= i < sorted@.len() && #[trigger] sorted@[i].1 == m;
                        assert(out[i] == m);
                        assert(out.contains(m));
                    }
                }
            }
            if sorted.len() > 0 {
                proof {
                    broadcast use vstd::seq_lib::group_to_multiset_ensures;
                    assert(sorted@.contains(sorted@[0]));
                    vstd::seq_lib::to_multiset_contains(sorted@, sorted@[0]);
                    vstd::seq_lib::to_multiset_contains(vs, sorted@[0]);
                    assert(vs.contains(sorted@[0]));
                }
                assert(vs.contains(sorted@[0]));
                let (bv, bm) = sorted[0];
                self.tt.set(slot, TtEntry { key: self.key, depth, value: bv, flag: 1, mv: bm });
            }
            let top = if sorted.len() > 0 {
                sorted[0].0
            } else {
                0
            };
            proof {
                vstd::seq_lib::to_multiset_len(sorted@);
                vstd::seq_lib::to_multiset_len(vs);
            }
            proof {
                broadcast use vstd::seq_lib::group_to_multiset_ensures;
                assert forall|i: int| 0 <= i < sorted@.len() && #[trigger] wins_at_once(self.p, sorted@[i].1) implies sorted@[i].0
                    == WIN by {
                    assert(sorted@.contains(sorted@[i]));
                    vstd::seq_lib::to_multiset_contains(sorted@, sorted@[i]);
                    vstd::seq_lib::to_multiset_contains(vs, sorted@[i]);
                    assert(vs.contains(sorted@[i]));
                    let j = choose|j: int| 0 <= j < vs.len() && vs[j] == sorted@[i];
                    assert(wins_at_once(self.p, vs[j].1));
                }
                assert forall|i: int| 0 <= i < sorted@.len() implies -WIN <= #[trigger] sorted@[i].0 <= WIN by {
                    assert(sorted@.contains(sorted@[i]));
                    vstd::seq_lib::to_multiset_contains(sorted@, sorted@[i]);
                    vstd::seq_lib::to_multiset_contains(vs, sorted@[i]);
                    assert(vs.contains(sorted@[i]));
                    let j = choose|j: int| 0 <= j < vs.len() && vs[j] == sorted@[i];
                    assert(-WIN <= vs[j].0 <= WIN);
                }
            }
            proof {
                if depth == 1 {
                    broadcast use vstd::seq_lib::group_to_multiset_ensures;
                    assert forall|i: int| 0 <= i < sorted@.len() implies #[trigger] sorted@[i].0 == ply_move_value(self.p, hand_fn(), 0, rl, e0, 0, self.z@, self.side, sorted@[i].1) by {
                        assert(sorted@.contains(sorted@[i]));
                        vstd::seq_lib::to_multiset_contains(sorted@, sorted@[i]);
                        vstd::seq_lib::to_multiset_contains(vs, sorted@[i]);
                        assert(vs.contains(sorted@[i]));
                        let j = choose|j: int| 0 <= j < vs.len() && vs[j] == sorted@[i];
                        assert(vs[j].0 == ply_move_value(self.p, hand_fn(), 0, rl, e0, 0, self.z@, self.side, vs[j].1));
                    }
                }
            }
            proof {
                if depth == 1 && win_available(self.p) && sorted@.len() > 0 {
                    let mw = choose|mw: (u8, u8)| movegen::legal_moves_spec(self.p).contains(mw) && #[trigger] wins_at_once(self.p, mw);
                    let i = choose|i: int| 0 <= i < sorted@.len() && #[trigger] sorted@[i].1 == mw;
                    assert(sorted@[i].0 == WIN);
                    if i > 0 {
                        assert(sorts_before(sorted@[0], sorted@[i]));
                    }
                    assert(top >= WIN);
                }
            }
            self.completed = sorted;
            self.depth_reached = depth;
            if top >= 1000000 - MAX_DEPTH {
                self.finished = true;
                break;
            }
            depth += 1;
        }
        let used = if self.budget.nodes < self.budget.cap {
            self.budget.nodes
        } else {
            self.budget.cap
        };
        self.total_nodes = self.total_nodes.saturating_add(used);
        proof {
            self.lemma_published();
        }
        self.results()
    }

    /// The last fully completed depth.
    pub fn depth(&self) -> (d: i32)
        ensures
            d == self.depth_spec(),
            self.wf() ==> 0 <= d <= MAX_DEPTH,
    {
        self.depth_reached
    }

    /// Nodes counted over all slices.
    pub fn total_nodes(&self) -> (n: u64)
        ensures
            n == self.total_spec(),
    {
        self.total_nodes
    }

    fn results(&self) -> (r: Vec<(u8, u8, i32, i32)>)
        ensures
            r@.len() == self.lines().len(),
            forall|i: int|
                0 <= i < r@.len() ==> #[trigger] r@[i] == (
                    self.lines()[i].1.0,
                    self.lines()[i].1.1,
                    self.lines()[i].0,
                    self.depth_spec(),
                ),
    {
        let mut r: Vec<(u8, u8, i32, i32)> = Vec::new();
        let mut i: usize = 0;
        while i < self.completed.len()
            invariant
                0 <= i <= self.completed@.len(),
                r@.len() == i,
                forall|j: int|
                    0 <= j < i ==> #[trigger] r@[j] == (
                        self.completed@[j].1.0,
                        self.completed@[j].1.1,
                        self.completed@[j].0,
                        self.depth_reached,
                    ),
            decreases self.completed@.len() - i,
        {
            let (v, m) = self.completed[i];
            r.push((m.0, m.1, v, self.depth_reached));
            i += 1;
        }
        r
    }
}

/// Exact values of every root move (each searched with a full window), best first, each with
/// the depth reached; empty when there is no legal move or not even depth 1 completed. Without
/// a time limit, depth 1 completes whenever the node budget covers, for every legal move, its
/// own node and a capture search of `qbound` nodes.
pub fn root_move_values<K: Clock>(p: &Parsed, node_budget: u64, time_ms: u64, clock: &K) -> (r: Vec<(u8, u8, i32, i32)>)
    requires
        position_ready(*p, node_budget),
    ensures
        r@.len() == 0 || (r@.len() == movegen::legal_moves_spec(*p).len() && 1 <= r@[0].3 <= MAX_DEPTH
            && lines_ok(*p, Seq::new(r@.len(), |i: int| (r@[i].2, (r@[i].0, r@[i].1))))
            && forall|i: int| 0 <= i < r@.len() ==> #[trigger] r@[i].3 == r@[0].3),
        movegen::legal_moves_spec(*p).len() == 0 ==> r@.len() == 0,
        depth_one_covered(*p, node_budget, time_ms as u128) ==> r@.len() == movegen::legal_moves_spec(*p).len(),
        forall|i: int| 0 <= i < r@.len() && #[trigger] wins_at_once(*p, (r@[i].0, r@[i].1)) ==> r@[i].2 == WIN,
        forall|i: int| 0 <= i < r@.len() ==> -WIN <= #[trigger] r@[i].2 <= WIN,
        forall|i: int| 0 <= i < r@.len() && r@[i].3 == 1 ==> #[trigger] r@[i].2 == analysis_first_value(*p, (r@[i].0, r@[i].1)),
        r@.len() > 0 && win_available(*p) ==> r@[0].3 == 1,
        forall|i: int| 0 <= i < r@.len() && r@[i].3 == 1 && !wins_at_once(*p, (r@[i].0, r@[i].1)) ==> #[trigger] r@[i].2 < WIN,
{
    let mut session = RootAnalysisSession::new(*p, time_ms, clock);
    let r = session.advance(node_budget, clock);
    proof {
        if r@.len() > 0 {
            let l = Seq::new(r@.len(), |i: int| (r@[i].2, (r@[i].0, r@[i].1)));
            assert(l == session.lines());
            assert forall|i: int| 0 <= i < r@.len() && r@[i].3 == 1 implies #[trigger] r@[i].2 == analysis_first_value(*p, (r@[i].0, r@[i].1)) by {
                assert(session.lines()[i] == l[i]);
            }
            assert forall|i: int| 0 <= i < r@.len() && r@[i].3 == 1 && !wins_at_once(*p, (r@[i].0, r@[i].1)) implies #[trigger] r@[i].2 < WIN by {
                assert(session.lines()[i] == l[i]);
            }
        }
    }
    proof {
        if session.depth_spec() >= 1 {
            assert(lines_ok(*p, session.lines()));
        }
        if r@.len() > 0 {
            let l = Seq::new(r@.len(), |i: int| (r@[i].2, (r@[i].0, r@[i].1)));
            assert(l == session.lines());
            assert forall|i: int| 0 <= i < r@.len() && #[trigger] wins_at_once(*p, (r@[i].0, r@[i].1)) implies r@[i].2
                == WIN by {
                assert(session.lines()[i] == l[i]);
            }
            assert forall|i: int| 0 <= i < r@.len() implies -WIN <= #[trigger] r@[i].2 <= WIN by {
                assert(session.lines()[i] == l[i]);
            }
        }
    }
    r
}

} // verus!
