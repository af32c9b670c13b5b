use vstd::prelude::*;
use crate::board::Parsed;
use crate::board;
use crate::fen;
use crate::fen::{state_from_fen, split_char};
use crate::search::{SearchStats, best_move_scored_stats, Clock};
use crate::search;
use crate::movegen;
use crate::notation;
use crate::notation::move_to_uci;
use crate::board::PROGRESS_LIMIT;
use crate::text;
use crate::text::{is_ws, str_chars, string_of, push_chars, push_dec, push_signed, push_str, parse_u64};

verus! {

// ── Text helpers ────────────────────────────────────────────────────────────

/// What follows `pre` at the start of `s`, when `s` starts with it.
pub open spec fn after_prefix(s: Seq<char>, pre: Seq<char>) -> Option<Seq<char>> {
    if pre.len() <= s.len() && s.take(pre.len() as int) == pre {
        Some(s.skip(pre.len() as int))
    } else {
        None
    }
}

/// `s` without its leading white space.
pub open spec fn trim_start(s: Seq<char>) -> Seq<char>
    decreases s.len(),
{
    if s.len() > 0 && is_ws(s[0]) {
        trim_start(s.drop_first())
    } else {
        s
    }
}

/// `s` without its trailing white space.
pub open spec fn trim_end(s: Seq<char>) -> Seq<char>
    decreases s.len(),
{
    if s.len() > 0 && is_ws(s.last()) {
        trim_end(s.drop_last())
    } else {
        s
    }
}

/// `s` without leading and trailing white space (as `str::trim` gives it).
pub open spec fn trim(s: Seq<char>) -> Seq<char> {
    trim_end(trim_start(s))
}

/// First position, at `i` or later, where `pat` occurs in `s`.
pub open spec fn find_from(s: Seq<char>, pat: Seq<char>, i: int) -> Option<int>
    decreases s.len() + 1 - i,
{
    if i < 0 || i + pat.len() > s.len() {
        None
    } else if s.subrange(i, i + pat.len()) == pat {
        Some(i)
    } else {
        find_from(s, pat, i + 1)
    }
}

fn sub_chars(s: &Vec<char>, a: usize, b: usize) -> (t: Vec<char>)
    requires
        a <= b <= s@.len(),
    ensures
        t@ == s@.subrange(a as int, b as int),
{
    let mut t: Vec<char> = Vec::new();
    let mut i: usize = a;
    while i < b
        invariant
            a <= i <= b <= s@.len(),
            t@ == s@.subrange(a as int, i as int),
        decreases b - i,
    {
        t.push(s[i]);
        assert(s@.subrange(a as int, i + 1) == s@.subrange(a as int, i as int).push(s@[i as int]));
        i += 1;
    }
    t
}

fn trim_chars(s: &Vec<char>) -> (t: Vec<char>)
    ensures
        t@ == trim(s@),
{
    let mut a: usize = 0;
    assert(s@.skip(0) =~= s@);
    while a < s.len() && is_ws(s[a])
        invariant
            0 <= a <= s@.len(),
            trim_start(s@) == trim_start(s@.skip(a as int)),
        decreases s@.len() - a,
    {
        assert(s@.skip(a as int).drop_first() =~= s@.skip(a + 1));
        a += 1;
    }
    let u = sub_chars(s, a, s.len());
    assert(u@ =~= s@.skip(a as int));
    assert(trim_start(s@) == u@);
    let mut e: usize = u.len();
    assert(u@.take(e as int) =~= u@);
    while e > 0 && is_ws(u[e - 1])
        invariant
            0 <= e <= u@.len(),
            trim_end(u@) == trim_end(u@.take(e as int)),
        decreases e,
    {
        assert(u@.take(e as int).drop_last() =~= u@.take(e - 1));
        e -= 1;
    }
    let t = sub_chars(&u, 0, e);
    assert(t@ =~= u@.take(e as int));
    t
}

fn matches_at(s: &Vec<char>, pat: &[char], i: usize) -> (r: bool)
    requires
        i + pat@.len() <= s@.len(),
    ensures
        r == (s@.subrange(i as int, i + pat@.len()) == pat@),
{
    let n = s.len();
    let mut j: usize = 0;
    while j < pat.len()
        invariant
            0 <= j <= pat@.len(),
            i + pat@.len() <= s@.len(),
            s@.len() == n,
            forall|k: int| 0 <= k < j ==> s@[i + k] == pat@[k],
        decreases pat@.len() - j,
    {
        if s[i + j] != pat[j] {
            assert(s@.subrange(i as int, i + pat@.len())[j as int] != pat@[j as int]);
            return false;
        }
        j += 1;
    }
    assert(s@.subrange(i as int, i + pat@.len()) =~= pat@);
    true
}

fn find_chars(s: &Vec<char>, pat: &[char]) -> (r: Option<usize>)
    ensures
        match r {
            Some(i) => find_from(s@, pat@, 0) == Some(i as int),
            None => find_from(s@, pat@, 0) is None,
        },
{
    let mut i: usize = 0;
    while i <= s.len() && pat.len() <= s.len() - i
        invariant
            find_from(s@, pat@, 0) == find_from(s@, pat@, i as int),
        decreases s@.len() + 1 - i,
    {
        if matches_at(s, pat, i) {
            return Some(i);
        }
        proof {
            if pat@.len() == 0 {
                assert(s@.subrange(i as int, i as int) =~= pat@);
            }
        }
        i += 1;
    }
    None
}

fn strip_prefix_chars(s: &Vec<char>, pre: &[char]) -> (r: Option<Vec<char>>)
    ensures
        match r {
            Some(t) => after_prefix(s@, pre@) == Some(t@),
            None => after_prefix(s@, pre@) is None,
        },
{
    if pre.len() <= s.len() && matches_at(s, pre, 0) {
        assert(s@.subrange(0, pre@.len() as int) == s@.take(pre@.len() as int));
        let t = sub_chars(s, pre.len(), s.len());
        assert(t@ =~= s@.skip(pre@.len() as int));
        Some(t)
    } else {
        proof {
            if pre@.len() <= s@.len() {
                assert(s@.subrange(0, pre@.len() as int) == s@.take(pre@.len() as int));
            }
        }
        None
    }
}

// ── The `position` command ──────────────────────────────────────────────────

pub open spec fn word_position() -> Seq<char> {
    seq!['p', 'o', 's', 'i', 't', 'i', 'o', 'n']
}

pub open spec fn word_fen() -> Seq<char> {
    seq!['f', 'e', 'n']
}

pub open spec fn sep_moves() -> Seq<char> {
    seq![' ', 'm', 'o', 'v', 'e', 's', ' ']
}

pub open spec fn sep_reps() -> Seq<char> {
    seq![' ', 'r', 'e', 'p', 's', ' ']
}

/// The trimmed pieces that are not empty, in order.
pub open spec fn rep_list(parts: Seq<Seq<char>>) -> Seq<Seq<char>>
    decreases parts.len(),
{
    if parts.len() == 0 {
        Seq::empty()
    } else {
        let prev = rep_list(parts.drop_last());
        let t = trim(parts.last());
        if t.len() > 0 {
            prev.push(t)
        } else {
            prev
        }
    }
}

/// The FEN and the repetition FENs of `position fen <FEN> [reps <FEN>;...] [moves ...]`: the
/// line must start with "position", then (after white space) "fen"; a " moves " suffix is
/// dropped; " reps " splits off a `;`-separated list whose trimmed, nonempty entries are kept.
pub open spec fn position_args(line: Seq<char>) -> Option<(Seq<char>, Seq<Seq<char>>)> {
    match after_prefix(line, word_position()) {
        None => None,
        Some(rest) => match after_prefix(trim(rest), word_fen()) {
            None => None,
            Some(f) => {
                let fr0 = trim(f);
                let fr = match find_from(fr0, sep_moves(), 0) {
                    Some(i) => fr0.take(i),
                    None => fr0,
                };
                match find_from(fr, sep_reps(), 0) {
                    Some(i) => Some(
                        (trim(fr.take(i)), rep_list(fen::split_on(fr.skip(i + 6), ';', Seq::empty()))),
                    ),
                    None => Some((fr, Seq::empty())),
                }
            },
        },
    }
}

/// Reads `position fen <FEN> [reps <FEN>;...] [moves ...]`: the position and the repetition
/// seed FENs; None when the line is not such a command or the FEN does not read.
pub fn parse_position_command(line: &str) -> (r: Option<(Parsed, Vec<String>)>)
    ensures
        match position_args(line@) {
            None => r is None,
            Some(args) => match r {
                None => fen::fen_parse_spec(args.0) is None,
                Some(res) => {
                    &&& fen::fen_parse_spec(args.0) == Some((res.0.squares@, res.0.turn, res.0.progress, res.0.movenum))
                    &&& res.1@.len() == args.1.len()
                    &&& forall|i: int| 0 <= i < args.1.len() ==> #[trigger] res.1@[i]@ == args.1[i]
                },
            },
        },
{
    let cs = str_chars(line);
    let w_position: [char; 8] = ['p', 'o', 's', 'i', 't', 'i', 'o', 'n'];
    assert(w_position@ == word_position());
    let rest = match strip_prefix_chars(&cs, &w_position) {
        Some(r) => r,
        None => {
            return None;
        },
    };
    let rest_t = trim_chars(&rest);
    let w_fen: [char; 3] = ['f', 'e', 'n'];
    assert(w_fen@ == word_fen());
    let f = match strip_prefix_chars(&rest_t, &w_fen) {
        Some(r) => r,
        None => {
            return None;
        },
    };
    let fr0 = trim_chars(&f);
    let s_moves: [char; 7] = [' ', 'm', 'o', 'v', 'e', 's', ' '];
    assert(s_moves@ == sep_moves());
    let fr = match find_chars(&fr0, &s_moves) {
        Some(i) => {
            proof {
                lemma_find_bound(fr0@, sep_moves(), 0);
            }
            sub_chars(&fr0, 0, i)
        },
        None => fr0,
    };
    assert(fr@ == match find_from(fr0@, sep_moves(), 0) {
        Some(i) => fr0@.take(i),
        None => fr0@,
    });
    let s_reps: [char; 6] = [' ', 'r', 'e', 'p', 's', ' '];
    assert(s_reps@ == sep_reps());
    let ghost args = position_args(line@);
    match find_chars(&fr, &s_reps) {
        Some(i) => {
            proof {
                lemma_find_bound(fr@, sep_reps(), 0);
                assert(sep_reps().len() == 6);
                assert(i + 6 <= fr@.len());
            }
            let head = sub_chars(&fr, 0, i);
            let fen_t = trim_chars(&head);
            let tail = sub_chars(&fr, i + 6, fr.len());
            assert(head@ =~= fr@.take(i as int));
            assert(tail@ =~= fr@.skip(i + 6));
            let parts = split_char(&tail, ';');
            let ghost ps = fen::split_on(tail@, ';', Seq::empty());
            let mut reps: Vec<String> = Vec::new();
            let mut k: usize = 0;
            while k < parts.len()
                invariant
                    0 <= k <= parts@.len(),
                    parts@.len() == ps.len(),
                    forall|j: int| 0 <= j < parts@.len() ==> #[trigger] parts@[j]@ == ps[j],
                    reps@.len() == rep_list(ps.take(k as int)).len(),
                    forall|j: int| 0 <= j < reps@.len() ==> #[trigger] reps@[j]@ == rep_list(ps.take(k as int))[j],
                decreases parts@.len() - k,
            {
                let t = trim_chars(&parts[k]);
                assert(ps.take(k + 1).drop_last() =~= ps.take(k as int));
                assert(ps.take(k + 1).last() == ps[k as int]);
                if t.len() > 0 {
                    let st = string_of(t.as_slice());
                    reps.push(st);
                }
                k += 1;
            }
            assert(ps.take(parts@.len() as int) =~= ps);
            let fen_s = string_of(fen_t.as_slice());
            match state_from_fen(fen_s.as_str()) {
                Some(q) => Some((q, reps)),
                None => None,
            }
        },
        None => {
            let fen_s = string_of(fr.as_slice());
            match state_from_fen(fen_s.as_str()) {
                Some(q) => Some((q, Vec::new())),
                None => None,
            }
        },
    }
}

proof fn lemma_find_bound(s: Seq<char>, pat: Seq<char>, i: int)
    ensures
        find_from(s, pat, i) matches Some(j) ==> i <= j && j + pat.len() <= s.len(),
    decreases s.len() + 1 - i,
{
    if !(i < 0 || i + pat.len() > s.len()) && s.subrange(i, i + pat.len()) != pat {
        lemma_find_bound(s, pat, i + 1);
    }
}

// ── The search information line ─────────────────────────────────────────────

/// Nodes per second: nodes × 1000 (saturating) over the elapsed milliseconds.
pub open spec fn nps_spec(nodes: u64, elapsed: u64) -> nat {
    let prod: int = if nodes * 1000 > u64::MAX {
        u64::MAX as int
    } else {
        nodes * 1000
    };
    (prod / (elapsed as int)) as nat
}

/// `info [depth <d>] nodes <n> [nps <x>] time <ms> score cp <s> pv <pv>`: depth only when an
/// iteration completed, nps only when time elapsed.
pub open spec fn info_line(nodes: u64, depth: i32, elapsed: u64, score: i32, pv: Seq<char>) -> Seq<char> {
    seq!['i', 'n', 'f', 'o'] + (if depth > 0 {
        seq![' ', 'd', 'e', 'p', 't', 'h', ' '] + text::dec_chars(depth as nat)
    } else {
        Seq::empty()
    }) + seq![' ', 'n', 'o', 'd', 'e', 's', ' '] + text::dec_chars(nodes as nat) + (if elapsed > 0 {
        seq![' ', 'n', 'p', 's', ' '] + text::dec_chars(nps_spec(nodes, elapsed))
    } else {
        Seq::empty()
    }) + seq![' ', 't', 'i', 'm', 'e', ' '] + text::dec_chars(elapsed as nat) + seq![
        ' ',
        's',
        'c',
        'o',
        'r',
        'e',
        ' ',
        'c',
        'p',
        ' ',
    ] + text::signed_chars(score as int) + seq![' ', 'p', 'v', ' '] + pv
}

/// The search information line for what a search consumed, in the standard field order; fields
/// the search did not produce (depth when no iteration completed, nps when no time elapsed)
/// are left out.
pub fn search_info_line(stats: &SearchStats, elapsed_ms: u64, score: i32, pv: &str) -> (line: String)
    ensures
        line@ == info_line(stats.nodes, stats.depth, elapsed_ms, score, pv@),
{
    let mut line = String::new();
    let w_info: [char; 4] = ['i', 'n', 'f', 'o'];
    push_chars(&mut line, &w_info);
    let ghost a = line@;
    if stats.depth > 0 {
        let w_depth: [char; 7] = [' ', 'd', 'e', 'p', 't', 'h', ' '];
        push_chars(&mut line, &w_depth);
        push_dec(&mut line, stats.depth as u64);
    }
    let w_nodes: [char; 7] = [' ', 'n', 'o', 'd', 'e', 's', ' '];
    push_chars(&mut line, &w_nodes);
    push_dec(&mut line, stats.nodes);
    if elapsed_ms > 0 {
        let w_nps: [char; 5] = [' ', 'n', 'p', 's', ' '];
        push_chars(&mut line, &w_nps);
        let prod: u64 = match stats.nodes.checked_mul(1000) {
            Some(x) => x,
            None => u64::MAX,
        };
        push_dec(&mut line, prod / elapsed_ms);
    }
    let w_time: [char; 6] = [' ', 't', 'i', 'm', 'e', ' '];
    push_chars(&mut line, &w_time);
    push_dec(&mut line, elapsed_ms);
    let w_score: [char; 10] = [' ', 's', 'c', 'o', 'r', 'e', ' ', 'c', 'p', ' '];
    push_chars(&mut line, &w_score);
    push_signed(&mut line, score as i64);
    let w_pv: [char; 4] = [' ', 'p', 'v', ' '];
    push_chars(&mut line, &w_pv);
    push_str(&mut line, pv);
    assert(line@ =~= info_line(stats.nodes, stats.depth, elapsed_ms, score, pv@));
    line
}

// ── The engine's command loop ───────────────────────────────────────────────

/// A draw is worth `-DRAW_CONTEMPT` to the side to move, so a side that is ahead or level
/// declines a repetition and plays on.
pub const DRAW_CONTEMPT: i32 = 80;
/// Time cap of a `go` without `movetime`.
pub const DEFAULT_MOVETIME_MS: u64 = 1000;
/// Node budget of a `go` without `nodes`.
pub const DEFAULT_NODES: u64 = 1000000;

/// The command word of a line: its first white-space separated token, or nothing.
pub open spec fn command_of(line: Seq<char>) -> Seq<char> {
    let t = fen::tokens(line);
    if t.len() > 0 {
        t[0]
    } else {
        Seq::empty()
    }
}

/// Time cap and node budget of `go` from its tokens from `i` on: `movetime <ms>` and
/// `nodes <n>` set a value when it reads as a `u64`; other words are skipped.
pub open spec fn go_scan(t: Seq<Seq<char>>, i: int, movetime: u64, nodes: u64) -> (u64, u64)
    decreases t.len() - i,
{
    if i < 0 || i >= t.len() {
        (movetime, nodes)
    } else if t[i] == "movetime"@ {
        if i + 1 < t.len() {
            go_scan(
                t,
                i + 2,
                match text::parse_u64_spec(t[i + 1]) {
                    Some(v) => v,
                    None => movetime,
                },
                nodes,
            )
        } else {
            (movetime, nodes)
        }
    } else if t[i] == "nodes"@ {
        if i + 1 < t.len() {
            go_scan(
                t,
                i + 2,
                movetime,
                match text::parse_u64_spec(t[i + 1]) {
                    Some(v) => v,
                    None => nodes,
                },
            )
        } else {
            (movetime, nodes)
        }
    } else {
        go_scan(t, i + 1, movetime, nodes)
    }
}

/// Time cap and node budget of a `go` line.
pub open spec fn go_limits(line: Seq<char>) -> (u64, u64) {
    go_scan(fen::tokens(line), 1, DEFAULT_MOVETIME_MS, DEFAULT_NODES)
}

/// The answer to a `go` on `p` with node budget `nodes` and time limit `time_ms`: "bestmove
/// (none)" when there is no legal move; otherwise the search information line and "bestmove
/// <move>" for a legal move, with a node count within the budget (plus the node that found it
/// spent) and a completed depth, at least 1 when the budget and time limit cover the first
/// iteration; once a depth completed, a move that wins at once is played, scored `WIN`, when
/// there is one.
pub open spec fn go_reply_ok(p: Parsed, nodes: u64, time_ms: u64, out: Seq<Seq<char>>) -> bool {
    if movegen::legal_moves_spec(p).len() == 0 {
        out == seq!["bestmove (none)"@]
    } else {
        exists|m: (u8, u8), n: u64, d: i32, elapsed: u64, score: i32|
            {
                &&& movegen::legal_moves_spec(p).contains(m)
                &&& n <= nodes + 1
                &&& 0 <= d <= search::MAX_DEPTH
                &&& (d >= 1 && exists|w: (u8, u8)| movegen::legal_moves_spec(p).contains(w) && #[trigger] search::wins_at_once(p, w))
                    ==> search::wins_at_once(p, m) && score == search::WIN
                &&& search::depth_one_covered(p, nodes, time_ms as u128) ==> d >= 1
                &&& out.len() == 2
                &&& #[trigger] out[0] == info_line(n, d, elapsed, score, notation::move_chars(m))
                &&& out[1] == "bestmove "@ + notation::move_chars(m)
            }
    }
}

/// A position the search can take with a node budget: its clocks have room to count moves.
pub open spec fn searchable(p: Parsed) -> bool {
    search::position_ready(p, 0)
}

/// State of the engine between commands: the position set by the last `position` command and
/// its repetition seed FENs.
pub struct UciSession {
    current: Option<Parsed>,
    rep_fens: Vec<String>,
}

impl UciSession {
    /// A stored position is a valid board.
    #[verifier::type_invariant]
    spec fn inv(self) -> bool {
        self.current matches Some(q) ==> board::valid_position(q)
    }
}

fn chars_eq(a: &Vec<char>, b: &str) -> (r: bool)
    ensures
        r == (a@ == b@),
{
    let bc = str_chars(b);
    if a.len() != bc.len() {
        return false;
    }
    let mut i: usize = 0;
    while i < a.len()
        invariant
            0 <= i <= a@.len(),
            a@.len() == bc@.len(),
            bc@ == b@,
            forall|k: int| 0 <= k < i ==> a@[k] == bc@[k],
        decreases a@.len() - i,
    {
        if a[i] != bc[i] {
            return false;
        }
        i += 1;
    }
    assert(a@ =~= bc@);
    true
}

fn line_of(t: &str) -> (s: String)
    ensures
        s@ == t@,
{
    let mut s = String::new();
    push_str(&mut s, t);
    s
}

/// The `go` limits of a line.
fn read_go_limits(toks: &Vec<Vec<char>>) -> (r: (u64, u64))
    ensures
        r == go_scan(toks@.map_values(|v: Vec<char>| v@), 1, DEFAULT_MOVETIME_MS, DEFAULT_NODES),
{
    let ghost t = toks@.map_values(|v: Vec<char>| v@);
    let mut movetime: u64 = DEFAULT_MOVETIME_MS;
    let mut nodes: u64 = DEFAULT_NODES;
    let mut i: usize = 1;
    while i < toks.len()
        invariant
            1 <= i,
            t == toks@.map_values(|v: Vec<char>| v@),
            go_scan(t, i as int, movetime, nodes) == go_scan(t, 1, DEFAULT_MOVETIME_MS, DEFAULT_NODES),
        decreases toks@.len() - i,
    {
        assert(t[i as int] == toks@[i as int]@);
        if chars_eq(&toks[i], "movetime") {
            if i + 1 < toks.len() {
                assert(t[i + 1] == toks@[i + 1]@);
                movetime = match parse_u64(toks[i + 1].as_slice()) {
                    Some(v) => v,
                    None => movetime,
                };
                i += 2;
            } else {
                i = toks.len();
            }
        } else if chars_eq(&toks[i], "nodes") {
            if i + 1 < toks.len() {
                assert(t[i + 1] == toks@[i + 1]@);
                nodes = match parse_u64(toks[i + 1].as_slice()) {
                    Some(v) => v,
                    None => nodes,
                };
                i += 2;
            } else {
                i = toks.len();
            }
        } else {
            i += 1;
        }
    }
    (movetime, nodes)
}

impl UciSession {
    /// The position set by the last `position` command, if any.
    pub closed spec fn position(&self) -> Option<Parsed> {
        self.current
    }

    /// The repetition seed FENs of the last `position` command.
    pub closed spec fn reps(&self) -> Seq<Seq<char>> {
        self.rep_fens@.map_values(|s: String| s@)
    }

    /// A session with no position.
    pub fn new() -> (s: UciSession)
        ensures
            s.position() is None,
            s.reps().len() == 0,
    {
        let s = UciSession { current: None, rep_fens: Vec::new() };
        assert(s.reps() =~= Seq::<Seq<char>>::empty());
        s
    }

    /// Answers one command line: the lines to print, and whether to quit.
    ///   uci        -> identification, the no-capture limit and the contempt, then uciok
    ///   isready    -> readyok
    ///   ucinewgame -> forget the position
    ///   position   -> set the position and repetition seeds (an unreadable line changes nothing)
    ///   go         -> search the position: information line and bestmove
    ///   quit       -> quit
    /// `clock` times the search of `go` (its `movetime` limit and the reported time).
    pub fn handle<K: Clock>(&mut self, line: &str, clock: &K) -> (r: (Vec<String>, bool))
        ensures
            r.1 == (command_of(line@) == "quit"@),
            command_of(line@) == "uci"@ ==> r.0@.map_values(|s: String| s@) == seq![
                "id name MistyJungle 0.0.5"@,
                "id author Mistboard"@,
                "info string progress_limit "@ + text::dec_chars(PROGRESS_LIMIT as nat),
                "info string draw_contempt "@ + text::dec_chars(DRAW_CONTEMPT as nat),
                "uciok"@,
            ],
            command_of(line@) == "isready"@ ==> r.0@.map_values(|s: String| s@) == seq!["readyok"@],
            command_of(line@) == "ucinewgame"@ ==> r.0@.len() == 0 && final(self).position() is None
                && final(self).reps().len() == 0,
            command_of(line@) == "position"@ ==> r.0@.len() == 0 && match position_args(trim(line@)) {
                Some(args) if fen::fen_parse_spec(args.0) is Some => {
                    &&& final(self).position() matches Some(q) && fen::fen_parse_spec(args.0) == Some(
                        (q.squares@, q.turn, q.progress, q.movenum),
                    )
                    &&& final(self).reps() == args.1
                },
                _ => final(self).position() == old(self).position() && final(self).reps() == old(self).reps(),
            },
            command_of(line@) == "go"@ ==> final(self).position() == old(self).position() && final(self).reps()
                == old(self).reps() && match old(self).position() {
                None => r.0@.map_values(|s: String| s@) == seq!["bestmove (none)"@],
                Some(p) => searchable(p) ==> go_reply_ok(
                    p,
                    if go_limits(line@).1 > u64::MAX - search::NODE_SLACK {
                        (u64::MAX - search::NODE_SLACK) as u64
                    } else {
                        go_limits(line@).1
                    },
                    go_limits(line@).0,
                    r.0@.map_values(|s: String| s@),
                ),
            },
            !(command_of(line@) == "uci"@ || command_of(line@) == "isready"@ || command_of(line@) == "ucinewgame"@
                || command_of(line@) == "position"@ || command_of(line@) == "go"@) ==> r.0@.len() == 0
                && final(self).position() == old(self).position() && final(self).reps() == old(self).reps(),
    {
        proof {
            use_type_invariant(&*self);
        }
        let cs = str_chars(line);
        let tcs = trim_chars(&cs);
        let toks = fen::split_whitespace(&cs);
        assert(toks@.map_values(|v: Vec<char>| v@) =~= fen::tokens(line@));
        let mut out: Vec<String> = Vec::new();
        proof {
            reveal_strlit("quit");
            reveal_strlit("uci");
            reveal_strlit("isready");
            reveal_strlit("ucinewgame");
            reveal_strlit("position");
            reveal_strlit("go");
        }
        if toks.len() == 0 {
            assert(command_of(line@).len() == 0);
            return (out, false);
        }
        let cmd = &toks[0];
        assert(cmd@ == command_of(line@));
        if chars_eq(cmd, "uci") {
            out.push(line_of("id name MistyJungle 0.0.5"));
            out.push(line_of("id author Mistboard"));
            let mut a = line_of("info string progress_limit ");
            push_dec(&mut a, PROGRESS_LIMIT as u64);
            out.push(a);
            let mut b = line_of("info string draw_contempt ");
            push_dec(&mut b, DRAW_CONTEMPT as u64);
            out.push(b);
            out.push(line_of("uciok"));
            assert(out@.map_values(|s: String| s@) =~= seq![
                "id name MistyJungle 0.0.5"@,
                "id author Mistboard"@,
                "info string progress_limit "@ + text::dec_chars(PROGRESS_LIMIT as nat),
                "info string draw_contempt "@ + text::dec_chars(DRAW_CONTEMPT as nat),
                "uciok"@,
            ]);
            (out, false)
        } else if chars_eq(cmd, "isready") {
            out.push(line_of("readyok"));
            assert(out@.map_values(|s: String| s@) =~= seq!["readyok"@]);
            (out, false)
        } else if chars_eq(cmd, "ucinewgame") {
            *self = UciSession { current: None, rep_fens: Vec::new() };
            assert(self.reps() =~= Seq::<Seq<char>>::empty());
            (out, false)
        } else if chars_eq(cmd, "position") {
            let tl = string_of(tcs.as_slice());
            match parse_position_command(tl.as_str()) {
                Some((state, seeds)) => {
                    proof {
                        let args = position_args(trim(line@)).unwrap();
                        fen::lemma_fen_parse_valid(args.0, state);
                    }
                    let ghost args = position_args(trim(line@)).unwrap();
                    *self = UciSession { current: Some(state), rep_fens: seeds };
                    assert(self.reps() =~= args.1);
                },
                None => {},
            }
            (out, false)
        } else if chars_eq(cmd, "go") {
            let (movetime, nodes0) = read_go_limits(&toks);
            let nodes = if nodes0 > u64::MAX - search::NODE_SLACK {
                u64::MAX - search::NODE_SLACK
            } else {
                nodes0
            };
            match self.current {
                Some(p) => {
                    if p.progress < u32::MAX && p.movenum <= u32::MAX - 128 {
                        let started = clock.now_ms();
                        let (m, score, stats) = best_move_scored_stats(
                            &p,
                            Some(&search::hand_leaf),
                            None,
                            nodes,
                            movetime,
                            self.rep_fens.as_slice(),
                            DRAW_CONTEMPT,
                            true,
                            clock,
                        );
                        let finished = clock.now_ms();
                        let elapsed_ms = if finished >= started {
                            finished - started
                        } else {
                            0
                        };
                        proof {
                            movegen::lemma_legal_moves_ok(p);
                            if movegen::legal_moves_spec(p).len() > 0 {
                                let j = choose|j: int| 0 <= j < movegen::legal_moves_spec(p).len() && movegen::legal_moves_spec(p)[j] == m;
                                assert(movegen::move_ok(p, movegen::legal_moves_spec(p)[j]));
                            }
                        }
                        if m.0 == 255 {
                            out.push(line_of("bestmove (none)"));
                            assert(out@.map_values(|s: String| s@) =~= seq!["bestmove (none)"@]);
                        } else {
                            let uci = move_to_uci(m);
                            let info = search_info_line(&stats, elapsed_ms, score, uci.as_str());
                            out.push(info);
                            let mut b = line_of("bestmove ");
                            push_str(&mut b, uci.as_str());
                            out.push(b);
                            proof {
                                let o = out@.map_values(|s: String| s@);
                                assert(o[0] == info_line(stats.nodes, stats.depth, elapsed_ms, score, notation::move_chars(m)));
                                assert(o[1] == "bestmove "@ + notation::move_chars(m));
                                assert(o.len() == 2);
                            }
                        }
                    } else {
                        out.push(line_of("bestmove (none)"));
                    }
                },
                None => {
                    out.push(line_of("bestmove (none)"));
                },
            }
            (out, false)
        } else if chars_eq(cmd, "quit") {
            (out, true)
        } else {
            (out, false)
        }
    }
}

/// `go nodes <n>` sets the node budget to `n`: on a line whose tokens are `go`, `nodes` and the
/// decimal notation of a `u64` `n`, the node budget is `n` and the time limit is the default.
pub proof fn lemma_go_nodes(line: Seq<char>, n: u64)
    requires
        fen::tokens(line) == seq!["go"@, "nodes"@, text::dec_chars(n as nat)],
    ensures
        go_limits(line) == (DEFAULT_MOVETIME_MS, n),
{
    reveal_strlit("go");
    reveal_strlit("nodes");
    reveal_strlit("movetime");
    text::lemma_parse_u64_dec(n);
    let t = fen::tokens(line);
    assert("nodes"@.len() == 5 && "movetime"@.len() == 8);
    assert(t[1] != "movetime"@);
    assert(t[1] == "nodes"@);
    assert(go_scan(t, 3, DEFAULT_MOVETIME_MS, n) == (DEFAULT_MOVETIME_MS, n));
}

/// `go movetime <ms>` sets the time limit to `ms`: on a line whose tokens are `go`, `movetime`
/// and the decimal notation of a `u64` `ms`, the time limit is `ms` and the node budget is the
/// default.
pub proof fn lemma_go_movetime(line: Seq<char>, ms: u64)
    requires
        fen::tokens(line) == seq!["go"@, "movetime"@, text::dec_chars(ms as nat)],
    ensures
        go_limits(line) == (ms, DEFAULT_NODES),
{
    reveal_strlit("go");
    reveal_strlit("movetime");
    text::lemma_parse_u64_dec(ms);
    let t = fen::tokens(line);
    assert(t[1] == "movetime"@);
    assert(go_scan(t, 3, ms, DEFAULT_NODES) == (ms, DEFAULT_NODES));
}

} // verus!
