use jungle_rust::board::{initial, make_move, opp_den, Parsed, PROGRESS_LIMIT};
use jungle_rust::eval::eval_hand;
use jungle_rust::fen::state_from_fen;
use jungle_rust::movegen::legal_moves;
use jungle_rust::search::{best_move_fixed_depth, WIN};
use jungle_rust::status::color_has_pieces;

// Plain negamax without pruning, written out move by move, to hold the search against.
fn move_value(p: &Parsed, m: (u8, u8), depth: i32, ply: i32) -> i64 {
    let c = make_move(p, m);
    if m.1 == opp_den(p.turn) || !color_has_pieces(&c, c.turn) {
        (WIN - ply) as i64
    } else if c.progress >= PROGRESS_LIMIT {
        0
    } else {
        -fixed_value(&c, depth - 1, ply + 1)
    }
}

fn fixed_value(p: &Parsed, depth: i32, ply: i32) -> i64 {
    let moves = legal_moves(p);
    if moves.is_empty() {
        return -((WIN - ply) as i64);
    }
    if depth <= 0 {
        return eval_hand(p) as i64;
    }
    moves.iter().map(|m| move_value(p, *m, depth, ply)).max().unwrap()
}

fn check_best(p: &Parsed, depth: i32) {
    let chosen = best_move_fixed_depth(p, depth);
    let moves = legal_moves(p);
    assert!(moves.contains(&chosen));
    let best = moves.iter().map(|m| move_value(p, *m, depth, 0)).max().unwrap();
    assert_eq!(move_value(p, chosen, depth, 0), best);
}

#[test]
fn fixed_depth_choice_has_the_greatest_negamax_value() {
    let start = initial();
    check_best(&start, 1);
    check_best(&start, 2);
    for fen in [
        "7/7/7/7/7/7/7/c6/D6 r 0 1",
        "l5t/1d3c1/r1p1w1e/7/7/7/E1W1P1R/1C3D1/T5L b 0 1",
        "7/2e4/7/3R3/7/7/7/1L5/7 r 3 9",
        "3e3/7/7/1r5/7/7/2E4/7/6L b 0 20",
    ] {
        let p = state_from_fen(fen).unwrap();
        check_best(&p, 1);
        check_best(&p, 2);
        check_best(&p, 3);
    }
}

#[test]
fn fixed_depth_without_moves_gives_no_move() {
    let p = state_from_fen("7/7/7/7/7/7/7/c6/7 r 0 1").unwrap();
    assert_eq!(best_move_fixed_depth(&p, 2), (255, 255));
}
