use jungle_rust::api::{
    analyze, best_move_fixed_depth_from_fen, best_move_with_from_fen, eval_hand_batch, initial_fen, legal_moves_from_fen,
    move_result_from_fen, probe_fen, status_from_fen, status_str, tb_probe,
};
use jungle_rust::board::{initial, Status};
use jungle_rust::eval::{eval_hand, manhattan};
use jungle_rust::fen::{state_from_fen, to_fen};
use jungle_rust::notation::{move_to_uci, sq_to_str, uci_to_move};
use jungle_rust::protocol::{parse_position_command, search_info_line, UciSession};
use jungle_rust::search::{Clock, NoClock, SearchStats};
use jungle_rust::solver::{
    build_tables, can_solve, can_solve_alone, sample_set_labels, solve_endgame, solve_set, solve_set_onfly,
    solve_set_retro, store_is_sized, store_stats, table_fits,
};
use jungle_rust::tablebase::{material_key, material_sets, probe_store, tb_index, Store, TB_DRAW, TB_LOSS, TB_WIN};
use jungle_rust::tbfile::{store_from_bytes, store_to_bytes};

/// Wall-clock milliseconds since the clock was made.
struct WallClock(std::time::Instant);

impl Clock for WallClock {
    fn now_ms(&self) -> u64 {
        self.0.elapsed().as_millis() as u64
    }
}

fn clock() -> WallClock {
    WallClock(std::time::Instant::now())
}

const WIN_FOR_RED: &str = "7/7/7/7/7/7/7/c6/D6 r 0 1";

#[test]
fn fen_text_reads_back_to_itself() {
    for fen in [
        "t5l/1c3d1/e1w1p1r/7/7/7/R1P1W1E/1D3C1/L5T r 0 1",
        "7/3p3/1Tcedl1/3w3/1R1L3/4r2/4WE1/1t2C2/2D4 b 11 45",
        WIN_FOR_RED,
    ] {
        let p = state_from_fen(fen).unwrap();
        assert_eq!(to_fen(&p), fen);
    }
    assert_eq!(initial_fen(), to_fen(&initial()));
}

#[test]
fn malformed_fens_are_refused() {
    assert!(state_from_fen("").is_none());
    assert!(state_from_fen("7/7/7 r 0 1").is_none());
    assert!(state_from_fen("8/7/7/7/7/7/7/7/7 r 0 1").is_none());
    assert!(state_from_fen("7/7/7/7/7/7/7/7/7/7 r 0 1").is_none());
    assert!(state_from_fen("7/7/7/7/7/7/7/7/6q r 0 1").is_none());
}

#[test]
fn fen_fields_after_the_board_are_lenient() {
    let p = state_from_fen("7/7/7/7/7/7/7/7/7 x 0 1").unwrap();
    assert_eq!(p.turn, 0);
    let p = state_from_fen("7/7/7/7/7/7/7/7/7 b zero 7").unwrap();
    assert_eq!((p.turn, p.progress, p.movenum), (1, 0, 7));
    let p = state_from_fen("7/7/7/7/7/7/7/7/7").unwrap();
    assert_eq!((p.turn, p.progress, p.movenum), (0, 0, 1));
}

#[test]
fn every_move_text_reads_back_to_its_move() {
    for a in 0u8..63 {
        for b in 0u8..63 {
            assert_eq!(uci_to_move(&move_to_uci((a, b))), Some((a, b)));
        }
    }
    assert_eq!(sq_to_str(0), "a1");
    assert_eq!(sq_to_str(62), "g9");
    assert_eq!(uci_to_move("h1a1"), None);
    assert_eq!(uci_to_move("a0a1"), None);
    assert_eq!(uci_to_move("a1"), None);
}

#[test]
fn manhattan_distance_on_the_board() {
    assert_eq!(manhattan(0, 62), 14);
    assert_eq!(manhattan(10, 10), 0);
    assert_eq!(manhattan(8, 0), 2);
}

#[test]
fn fixed_depth_search_takes_an_immediate_win() {
    assert_eq!(best_move_fixed_depth_from_fen(WIN_FOR_RED, 1), "a1a2");
    assert_eq!(best_move_fixed_depth_from_fen(WIN_FOR_RED, 3), "a1a2");
}

#[test]
fn statuses_by_name() {
    assert_eq!(status_str(Status::Win(0)), "red");
    assert_eq!(status_str(Status::Win(1)), "black");
    assert_eq!(status_str(Status::Draw), "draw");
    assert_eq!(status_str(Status::Playing), "playing");
    assert_eq!(status_from_fen("not a fen"), "invalid");
    assert_eq!(status_from_fen(&initial_fen()), "playing");
    // Red has no piece left: black has won.
    assert_eq!(status_from_fen("7/7/7/7/7/7/7/c6/7 r 0 1"), "black");
}

#[test]
fn applying_a_move_text_to_a_fen() {
    let (fen, st) = move_result_from_fen(WIN_FOR_RED, "a1a2");
    assert_eq!(fen, "7/7/7/7/7/7/7/D6/7 b 0 1");
    assert_eq!(st, "red");
    let (fen, st) = move_result_from_fen(&initial_fen(), "a3a4");
    assert_eq!(fen, "t5l/1c3d1/e1w1p1r/7/7/R6/2P1W1E/1D3C1/L5T b 1 1");
    assert_eq!(st, "playing");
    assert_eq!(move_result_from_fen(&initial_fen(), "zz"), ("invalid".to_string(), "invalid".to_string()));
    assert_eq!(move_result_from_fen("bad", "a1a2"), ("invalid".to_string(), "invalid".to_string()));
}

#[test]
fn legal_move_texts_come_sorted() {
    let m = legal_moves_from_fen(&initial_fen());
    assert_eq!(m.len(), 24);
    let mut sorted = m.clone();
    sorted.sort();
    assert_eq!(m, sorted);
    assert!(legal_moves_from_fen("bad").is_empty());
}

#[test]
fn batch_evaluation_matches_single_boards() {
    let p = initial();
    let mut flat: Vec<u8> = p.squares.to_vec();
    flat.extend_from_slice(&p.squares);
    let r = eval_hand_batch(&flat, &[0, 1]);
    assert_eq!(r.len(), 2);
    assert_eq!(r[0], eval_hand(&p));
    let mut q = p;
    q.turn = 1;
    assert_eq!(r[1], eval_hand(&q));
    assert!(eval_hand_batch(&flat, &[]).is_empty());
}

#[test]
fn browser_analysis_answers() {
    assert_eq!(analyze("bad", 1000, 3), "{\"error\":\"bad_fen\"}");
    // Black to move with no piece: no legal move, no line.
    assert_eq!(analyze("7/7/7/7/7/7/7/7/D6 b 0 1", 1000, 3), "{\"lines\":[]}");
    let out = analyze(&initial_fen(), 2000, 2);
    assert!(out.starts_with("{\"lines\":[{\"uci\":\""), "{out}");
    assert!(out.ends_with("}]}"), "{out}");
    assert_eq!(out.matches("\"uci\"").count(), 2, "{out}");
    let one = analyze(WIN_FOR_RED, 2000, 0);
    assert!(one.starts_with("{\"lines\":[{\"uci\":\"a1a2\""), "{one}");
    assert_eq!(one.matches("\"uci\"").count(), 1, "{one}");
}

#[test]
fn position_command_variants() {
    let (p, reps) = parse_position_command(&format!("position fen {} reps a ; ; b", initial_fen())).unwrap();
    assert_eq!(p, initial());
    assert_eq!(reps, vec!["a".to_string(), "b".to_string()]);
    assert!(parse_position_command("position startpos").is_none());
    assert!(parse_position_command("position").is_none());
    assert!(parse_position_command("position fen 7/7 r 0 1").is_none());
    assert!(parse_position_command("go").is_none());
}

#[test]
fn info_line_with_depth_and_rate() {
    let stats = SearchStats { nodes: 5000, depth: 4 };
    assert_eq!(search_info_line(&stats, 1000, 35, "a3a4"), "info depth 4 nodes 5000 nps 5000 time 1000 score cp 35 pv a3a4");
}

#[test]
fn command_session_dialogue() {
    let mut s = UciSession::new();
    let (out, quit) = s.handle("uci", &NoClock);
    assert!(!quit);
    assert_eq!(out.len(), 5);
    assert_eq!(out[0], "id name MistyJungle 0.0.5");
    assert_eq!(out[4], "uciok");
    assert_eq!(s.handle("isready", &NoClock), (vec!["readyok".to_string()], false));
    assert_eq!(s.handle("go nodes 100", &NoClock), (vec!["bestmove (none)".to_string()], false));
    assert_eq!(s.handle(&format!("position fen {WIN_FOR_RED}"), &NoClock), (vec![], false));
    let (out, _) = s.handle("go nodes 2000", &NoClock);
    assert_eq!(out.last().unwrap(), "bestmove a1a2");
    assert_eq!(s.handle("ucinewgame", &NoClock), (vec![], false));
    assert_eq!(s.handle("go", &NoClock), (vec!["bestmove (none)".to_string()], false));
    assert_eq!(s.handle("what", &NoClock), (vec![], false));
    assert_eq!(s.handle("quit", &NoClock), (vec![], true));
}

#[test]
fn the_three_solvers_agree_and_build_tables_covers_every_pair() {
    let empty = Store::new();
    for pieces in [[1u8, 9u8], [8u8, 16u8], [6u8, 13u8]] {
        let a = solve_set(&pieces, &empty);
        assert_eq!(solve_set_retro(&pieces, &empty), a);
        assert_eq!(solve_set_onfly(&pieces, &empty), a);
        assert_eq!(solve_endgame(&pieces), a);
    }
    let store = build_tables(2);
    assert!(store_is_sized(&store));
    let sets = material_sets(2);
    assert_eq!(sets.len(), 64);
    for set in &sets {
        let t = store.get(set).unwrap();
        assert_eq!(*t, solve_set(set, &empty));
    }
    let rows = store_stats(&store);
    assert_eq!(rows.len(), 1);
    assert_eq!(rows[0].0, 2);
    assert_eq!(rows[0].1, 64);
    assert_eq!(rows[0].2, rows[0].3 + rows[0].4 + rows[0].5);
}

#[test]
fn probing_a_built_store() {
    let store = build_tables(2);
    let p = state_from_fen(WIN_FOR_RED).unwrap();
    let key = material_key(&p);
    assert_eq!(key, vec![3, 10]);
    assert_eq!(probe_store(&store, &p), Some(TB_WIN));
    assert_eq!(store.get(&key).unwrap()[tb_index(&key, &p)], TB_WIN);
    // The game is over: probed by status without a table.
    let over = state_from_fen("7/7/7/7/7/7/7/c6/7 r 0 1").unwrap();
    assert_eq!(probe_store(&Store::new(), &over), Some(TB_LOSS));
    assert_eq!(probe_store(&Store::new(), &p), None);
    assert_eq!(tb_probe(&[3, 10], WIN_FOR_RED), "win");
    assert_eq!(tb_probe(&[3, 10], "bad"), "invalid");
    // By name through a FEN.
    assert_eq!(probe_fen(&store, WIN_FOR_RED), "win");
    assert_eq!(probe_fen(&store, "7/7/7/7/7/7/7/c6/7 r 0 1"), "loss");
    assert_eq!(probe_fen(&Store::new(), WIN_FOR_RED), "nottb");
    assert_eq!(probe_fen(&store, "not a fen"), "invalid");
}

#[test]
fn search_with_a_store_and_an_evaluator() {
    let store = build_tables(2);
    let none: Option<&fn(&jungle_rust::board::Parsed) -> i32> = None;
    assert_eq!(best_move_with_from_fen(WIN_FOR_RED, none, Some(&store), 20_000, 100_000, &[], 0, &clock()), "a1a2");
    let leaf = |q: &jungle_rust::board::Parsed| eval_hand(q) / 2;
    assert_eq!(best_move_with_from_fen(WIN_FOR_RED, Some(&leaf), None, 20_000, 100_000, &[], 0, &clock()), "a1a2");
    assert_eq!(best_move_with_from_fen("bad", none, None, 20_000, 100_000, &[], 0, &clock()), "(none)");
    assert_eq!(best_move_with_from_fen("7/7/7/7/7/7/7/c6/7 r 0 1", none, None, 20_000, 100_000, &[], 0, &clock()), "(none)");
}

#[test]
fn who_can_be_solved() {
    assert!(table_fits(2));
    assert!(table_fits(4));
    assert!(!table_fits(20));
    assert!(can_solve_alone(&[3, 10]));
    assert!(!can_solve_alone(&[3, 3]));
    assert!(!can_solve(&[3, 9, 10], &Store::new()));
    assert!(can_solve(&[3, 9, 10], &build_tables(2)));
}

#[test]
fn sampled_labels_agree_with_the_table() {
    let empty = Store::new();
    let pieces = [3u8, 10u8];
    let table = solve_set(&pieces, &empty);
    let labels = sample_set_labels(&pieces, &empty, 50, 7);
    assert!(labels.len() <= 50);
    assert!(!labels.is_empty());
    for (squares, stm, wdl) in &labels {
        assert_eq!(squares.len(), 63);
        assert!(*stm <= 1);
        assert!(*wdl == TB_WIN || *wdl == TB_LOSS || *wdl == TB_DRAW);
        let mut q = initial();
        q.squares.copy_from_slice(squares);
        q.turn = *stm;
        q.progress = 0;
        q.movenum = 1;
        assert_eq!(table[tb_index(&pieces, &q)], *wdl);
    }
    assert!(sample_set_labels(&pieces, &empty, 0, 7).is_empty());
}

#[test]
fn stores_survive_their_byte_form() {
    let store = build_tables(2);
    let bytes = store_to_bytes(&store);
    let back = store_from_bytes(&bytes).unwrap();
    for set in material_sets(2) {
        assert_eq!(back.get(&set), store.get(&set));
    }
    assert_eq!(back.sets().len(), store.sets().len());
    // Empty store: a zero count and nothing else.
    assert_eq!(store_to_bytes(&Store::new()), vec![0, 0, 0, 0]);
    assert!(store_from_bytes(&[0, 0, 0, 0]).unwrap().sets().is_empty());
    // One entry announced, none present.
    assert!(store_from_bytes(&[1, 0, 0, 0]).is_none());
    // A key holding a code that names no piece.
    assert!(store_from_bytes(&[1, 0, 0, 0, 1, 17, 0, 0, 0, 0]).is_none());
    // A well-formed one-entry store.
    let one = store_from_bytes(&[1, 0, 0, 0, 2, 3, 10, 2, 0, 0, 0, 2, 1]).unwrap();
    assert_eq!(one.get(&[3, 10]).unwrap(), &vec![2u8, 1u8]);
}

#[test]
fn root_values_complete_depth_one_within_a_covering_budget() {
    // Two pieces: at most 3 moves, each covered by 1 + 145 nodes.
    let p = state_from_fen(WIN_FOR_RED).unwrap();
    let r = jungle_rust::search::root_move_values(&p, 1000, 0, &NoClock);
    assert!(!r.is_empty());
    assert_eq!(r.len(), jungle_rust::movegen::legal_moves(&p).len());
    assert_eq!((r[0].0, r[0].1), (0, 7));
    // No legal move: nothing to list.
    let over = state_from_fen("7/7/7/7/7/7/7/c6/7 r 0 1").unwrap();
    assert!(jungle_rust::search::root_move_values(&over, 1000, 0, &NoClock).is_empty());
}

#[test]
fn material_sets_are_listed_once_in_order() {
    let two = material_sets(2);
    assert_eq!(two.len(), 64);
    assert_eq!(two[0], vec![1, 9]);
    assert!(two.windows(2).all(|w| w[0] < w[1]));
    let three = material_sets(3);
    assert_eq!(three.len(), 560 - 2 * 56);
    assert!(three.windows(2).all(|w| w[0] < w[1]));
    assert!(material_sets(0).is_empty());
    assert!(material_sets(1).is_empty());
}
