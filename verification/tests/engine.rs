use jungle_rust::board::{
    color_of, initial, is_water, make_move, trap_owner, Parsed, Status, BLACK_DEN, PROGRESS_LIMIT, RED_DEN,
};
use jungle_rust::fen::{state_from_fen, to_fen};
use jungle_rust::movegen::legal_moves;
use jungle_rust::notation::{move_to_uci, uci_to_move};
use jungle_rust::search::{best_move, best_move_scored_stats, root_move_values, Clock, NoClock, RootAnalysisSession};
use jungle_rust::solver::{solve_endgame, solve_endgame_stats, solve_set, solve_set_onfly, solve_set_retro};
use jungle_rust::status::board_status;
use jungle_rust::tablebase::{material_sets, tb_index, Store, TB_WIN};

/// Wall-clock milliseconds since the clock was made.
struct WallClock(std::time::Instant);

impl Clock for WallClock {
    fn now_ms(&self) -> u64 {
        self.0.elapsed().as_millis() as u64
    }
}

fn clock() -> WallClock {
    WallClock(std::time::Instant::now())
}

fn ucis(p: &Parsed) -> Vec<String> {
    let mut v: Vec<String> = legal_moves(p).into_iter().map(move_to_uci).collect();
    v.sort();
    v
}

#[test]
fn initial_fen_roundtrips() {
    let p = initial();
    let fen = to_fen(&p);
    assert_eq!(fen, "t5l/1c3d1/e1w1p1r/7/7/7/R1P1W1E/1D3C1/L5T r 0 1");
    assert_eq!(state_from_fen(&fen).unwrap(), p);
}

#[test]
fn geometry_matches_kernel() {
    assert_eq!((RED_DEN, BLACK_DEN), (3, 59));
    assert!(is_water(22) && is_water(40) && !is_water(0));
    assert_eq!(trap_owner(2), 0);
    assert_eq!(trap_owner(52), 1);
    assert_eq!(trap_owner(0), 2);
}

#[test]
fn move_codec_roundtrips() {
    for &(a, b) in &[(0u8, 1u8), (3, 10), (62, 56)] {
        assert_eq!(uci_to_move(&move_to_uci((a, b))).unwrap(), (a, b));
    }
    assert_eq!(color_of(1), 0);
    assert_eq!(color_of(9), 1);
}

#[test]
fn initial_position_has_24_red_moves() {
    let p = initial();
    let m = ucis(&p);
    assert_eq!(m.len(), 24, "{m:?}");
    assert!(m.contains(&"a3a4".to_string()));
    assert!(m.contains(&"c3b3".to_string()));
    assert!(!m.contains(&"c3c4".to_string()));
    assert!(!m.contains(&"a1d1".to_string()));
}

#[test]
fn lion_jumps_lake_and_a_rat_blocks_it() {
    let p = state_from_fen("7/7/7/7/7/7/1L5/7/7 r 0 1").unwrap();
    assert!(ucis(&p).contains(&"b3b7".to_string()));
    assert!(!ucis(&p).contains(&"b3b4".to_string()));
    let blocked = state_from_fen("7/7/7/7/1r5/7/1L5/7/7 r 0 1").unwrap();
    assert!(!ucis(&blocked).contains(&"b3b7".to_string()));
}

#[test]
fn rat_takes_elephant_from_land_but_not_vice_versa() {
    let p = state_from_fen("7/7/7/7/7/7/7/e6/R6 r 0 1").unwrap();
    assert!(ucis(&p).contains(&"a1a2".to_string()));
    let bp = state_from_fen("7/7/7/7/7/7/7/e6/R6 b 0 1").unwrap();
    assert!(!ucis(&bp).contains(&"a2a1".to_string()));
    assert!(ucis(&bp).contains(&"a2b2".to_string()));
}

#[test]
fn enemy_on_our_trap_is_rank_zero() {
    let p = state_from_fen("7/7/7/7/7/7/7/7/1Ce4 r 0 1").unwrap();
    assert!(ucis(&p).contains(&"b1c1".to_string()));
}

#[test]
fn terminals() {
    let p = state_from_fen("2L4/7/7/7/7/7/7/7/r6 r 0 1").unwrap();
    let m = uci_to_move("c9d9").unwrap();
    assert!(legal_moves(&p).contains(&m));
    assert_eq!(board_status(&make_move(&p, m), m.1), Status::Win(0));

    let p2 = state_from_fen("7/7/7/7/7/7/7/L6/r6 r 0 1").unwrap();
    let m2 = uci_to_move("a2a1").unwrap();
    assert_eq!(board_status(&make_move(&p2, m2), m2.1), Status::Win(0));

    let quiet = uci_to_move("c9c8").unwrap();
    let below = state_from_fen(&format!("2L4/7/7/7/7/7/7/7/r6 r {} 1", PROGRESS_LIMIT - 2)).unwrap();
    assert_eq!(board_status(&make_move(&below, quiet), quiet.1), Status::Playing);
    let at = state_from_fen(&format!("2L4/7/7/7/7/7/7/7/r6 r {} 1", PROGRESS_LIMIT - 1)).unwrap();
    assert_eq!(board_status(&make_move(&at, quiet), quiet.1), Status::Draw);
}

#[test]
fn search_takes_the_winning_capture() {
    let p = state_from_fen("7/7/7/7/7/7/7/L6/r6 r 0 1").unwrap();
    assert_eq!(best_move(&p, 200_000, 100_000, &clock()), uci_to_move("a2a1").unwrap());
}

#[test]
fn search_enters_the_den() {
    let p = state_from_fen("2L4/7/7/7/7/7/7/7/r6 r 0 1").unwrap();
    assert_eq!(best_move(&p, 200_000, 100_000, &clock()), uci_to_move("c9d9").unwrap());
}

#[test]
fn search_returns_a_legal_move_from_initial() {
    let p = initial();
    let m = best_move(&p, 200_000, 100_000, &clock());
    assert!(legal_moves(&p).contains(&m));
}

#[test]
fn incremental_root_analysis_retains_completed_work_across_slices() {
    let mut session = RootAnalysisSession::new(initial(), 0, &clock());
    let first = session.advance(100_000, &clock());
    let first_depth = session.depth();
    assert_eq!(first.len(), 24);
    assert!(first_depth >= 1);
    assert_eq!(session.total_nodes(), 100_000);

    let second = session.advance(100_000, &clock());
    assert_eq!(second.len(), 24);
    assert!(session.depth() >= first_depth);
    assert_eq!(session.total_nodes(), 200_000);
    assert!(second.iter().all(|line| line.3 == session.depth()));
}

#[test]
fn search_is_deterministic_at_fixed_budget() {
    let p = initial();
    assert_eq!(best_move(&p, 300_000, 100_000, &clock()), best_move(&p, 300_000, 100_000, &clock()));
}

#[test]
fn tablebase_2piece_solves() {
    let pieces = [3u8, 10u8];
    let val = solve_endgame(&pieces);
    let win = state_from_fen("7/7/7/7/7/7/7/c6/D6 r 0 1").unwrap();
    assert_eq!(val[tb_index(&pieces, &win)], TB_WIN);
    let (valid, w, l, d) = solve_endgame_stats(&pieces);
    assert!((4000..7812).contains(&valid));
    assert!(w > 0 && l > 0);
    assert!(d * 20 < valid);
}

#[test]
fn retrograde_matches_fixpoint() {
    let empty = Store::new();
    let two = [3u8, 10u8];
    assert_eq!(solve_set_retro(&two, &empty), solve_set(&two, &empty));

    let mut store = Store::new();
    for set in material_sets(2) {
        let table = solve_set(&set, &store);
        store.insert(set.clone(), table);
    }
    let three = [3u8, 9u8, 10u8];
    assert_eq!(solve_set_retro(&three, &store), solve_set(&three, &store));
}

#[test]
fn onfly_matches_retro() {
    let empty = Store::new();
    let two = [4u8, 11u8];
    assert_eq!(solve_set_onfly(&two, &empty), solve_set_retro(&two, &empty));

    let mut store = Store::new();
    for set in material_sets(2) {
        let table = solve_set_retro(&set, &store);
        store.insert(set.clone(), table);
    }
    let three = [5u8, 9u8, 12u8];
    assert_eq!(solve_set_onfly(&three, &store), solve_set_retro(&three, &store));
}

/// A clock that jumps a second ahead at every reading.
struct JumpClock(std::cell::Cell<u64>);

impl Clock for JumpClock {
    fn now_ms(&self) -> u64 {
        let t = self.0.get();
        self.0.set(t + 1000);
        t
    }
}

#[test]
fn time_limit_ends_search_at_first_clock_reading() {
    let p = initial();
    let clock = JumpClock(std::cell::Cell::new(0));
    let (m, _, stats) = best_move_scored_stats(&p, None::<&fn(&Parsed) -> i32>, None, 1_000_000, 1, &[], 0, true, &clock);
    assert!(legal_moves(&p).contains(&m));
    // The clock is first read at node 1024, a second after the start: past a 1 ms limit.
    assert_eq!(stats.nodes, 1024);
    // Without a time limit the clock is never read and the node budget decides.
    let (_, _, stats) = best_move_scored_stats(&p, None::<&fn(&Parsed) -> i32>, None, 3000, 0, &[], 0, true, &clock);
    assert_eq!(stats.nodes, 3001);
}

#[test]
fn den_entry_is_the_only_winning_line_at_depth_one() {
    let p = state_from_fen("2L4/7/7/7/7/7/7/7/r6 r 0 1").unwrap();
    let r = root_move_values(&p, 1_000, 0, &NoClock);
    assert_eq!(r.len(), 3);
    assert_eq!(r[0], (58, 59, 1_000_000, 1));
    assert!(r[1..].iter().all(|l| l.2 < 1_000_000 && l.3 == 1));
}

#[test]
fn finished_session_does_no_more_work() {
    let p = state_from_fen("2L4/7/7/7/7/7/7/7/r6 r 0 1").unwrap();
    let mut s = RootAnalysisSession::new(p, 0, &NoClock);
    let a = s.advance(1_000, &NoClock);
    assert_eq!(s.depth(), 1);
    let used = s.total_nodes();
    let b = s.advance(50_000, &NoClock);
    assert_eq!(a, b);
    assert_eq!(s.depth(), 1);
    assert_eq!(s.total_nodes(), used);
    // No legal move: finished at once, nothing listed.
    let none = state_from_fen("7/7/7/7/7/7/7/c6/7 r 0 1").unwrap();
    let mut t = RootAnalysisSession::new(none, 0, &NoClock);
    assert!(t.advance(1_000, &NoClock).is_empty());
    assert_eq!(t.depth(), 0);
}

#[test]
fn unfinished_slice_spends_its_whole_budget() {
    let mut s = RootAnalysisSession::new(initial(), 0, &NoClock);
    s.advance(5_000, &NoClock);
    assert_eq!(s.total_nodes(), 5_000);
    s.advance(7_000, &NoClock);
    assert_eq!(s.total_nodes(), 12_000);
}

#[test]
fn first_iteration_value_of_a_won_position() {
    let p = state_from_fen("7/7/7/7/7/7/7/c6/D6 r 0 1").unwrap();
    let (m, score, stats) = best_move_scored_stats(&p, None::<&fn(&Parsed) -> i32>, None, 2_000, 0, &[], 0, true, &NoClock);
    assert_eq!(move_to_uci(m), "a1a2");
    assert_eq!(score, 1_000_000);
    assert_eq!(stats.depth, 1);
}

#[test]
fn move_status_matches_position_status() {
    for fen in ["2L4/7/7/7/7/7/7/7/r6 r 0 1", "7/7/7/7/7/7/7/c6/D6 r 0 1"] {
        let p = state_from_fen(fen).unwrap();
        for m in legal_moves(&p) {
            let c = make_move(&p, m);
            assert_eq!(board_status(&c, m.1), jungle_rust::status::status_of(&c));
        }
    }
    let p = initial();
    for m in legal_moves(&p) {
        let c = make_move(&p, m);
        assert_eq!(board_status(&c, m.1), jungle_rust::status::status_of(&c));
        assert_eq!(board_status(&c, m.1), Status::Playing);
    }
}

#[test]
fn evaluation_changes_sign_with_the_side_to_move() {
    let p = initial();
    let mut q = p;
    q.turn = 1;
    assert_eq!(jungle_rust::eval::eval_hand(&q), -jungle_rust::eval::eval_hand(&p));
    let r = state_from_fen("2L4/7/7/7/7/7/7/7/r6 r 0 1").unwrap();
    let mut s = r;
    s.turn = 1;
    assert_eq!(jungle_rust::eval::eval_hand(&s), -jungle_rust::eval::eval_hand(&r));
    assert_ne!(jungle_rust::eval::eval_hand(&r), 0);
}
