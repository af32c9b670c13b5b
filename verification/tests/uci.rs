use jungle_rust::board::Parsed;
use jungle_rust::fen::to_fen;
use jungle_rust::notation::move_to_uci;
use jungle_rust::protocol::{parse_position_command, search_info_line, DRAW_CONTEMPT};
use jungle_rust::search::{best_move_scored_full, best_move_scored_stats, Clock, SearchStats};

/// Wall-clock milliseconds since the clock was made.
struct WallClock(std::time::Instant);

impl Clock for WallClock {
    fn now_ms(&self) -> u64 {
        self.0.elapsed().as_millis() as u64
    }
}

fn clock() -> WallClock {
    WallClock(std::time::Instant::now())
}

const CURRENT: &str = "7/3p3/1Tcedl1/3w3/1R1L3/4r2/4WE1/1t2C2/2D4 b 11 45";
const REPEATED: &str = "7/3p3/1Tcedl1/3w3/1R1L3/4r2/4WE1/2t1C2/2D4 r 4 42";

type Leaf = fn(&Parsed) -> i32;

#[test]
fn position_command_parses_repetition_seed_fens() {
    let (state, reps) = parse_position_command(&format!("position fen {CURRENT} reps {REPEATED}")).unwrap();
    assert_eq!(to_fen(&state), CURRENT);
    assert_eq!(reps, vec![REPEATED]);
}

#[test]
fn position_command_keeps_accepting_a_moves_suffix() {
    let (state, reps) = parse_position_command(&format!("position fen {CURRENT} moves b2c2")).unwrap();
    assert_eq!(to_fen(&state), CURRENT);
    assert!(reps.is_empty());
}

#[test]
fn search_info_reports_real_consumption_not_the_budget() {
    let (state, reps) = parse_position_command(&format!("position fen {CURRENT} reps {REPEATED}")).unwrap();
    let budget = 200_000;
    let (best, score, stats) =
        best_move_scored_stats(&state, None::<&Leaf>, None, budget, 60_000, &reps, DRAW_CONTEMPT, true, &clock());
    assert!(stats.nodes > budget / 2, "{} nodes", stats.nodes);
    assert!(stats.nodes <= budget + 1, "{} nodes", stats.nodes);
    assert!(stats.depth >= 1);
    let line = search_info_line(&stats, 123, score, &move_to_uci(best));
    assert!(line.starts_with(&format!("info depth {} nodes {} nps ", stats.depth, stats.nodes)), "{line}");
    assert!(line.contains(&format!(" time 123 score cp {score} pv ")), "{line}");
}

#[test]
fn search_info_omits_fields_the_search_did_not_produce() {
    let stats = SearchStats { nodes: 7, depth: 0 };
    assert_eq!(search_info_line(&stats, 0, -12, "a1b1"), "info nodes 7 time 0 score cp -12 pv a1b1");
}

#[test]
fn reported_game_avoids_the_immediate_threefold_draw() {
    let (state, reps) = parse_position_command(&format!("position fen {CURRENT} reps {REPEATED}")).unwrap();
    let (best, _) = best_move_scored_full(&state, None::<&Leaf>, None, 500_000, 4_000, &reps, DRAW_CONTEMPT, &clock());
    assert_ne!(move_to_uci(best), "b2c2");
}
