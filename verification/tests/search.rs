//! Move generation and the searches.

use wisdom::board::{Board, Color, Piece, PieceType};
use wisdom::fen::parse_fen;
use wisdom::moves::Move;
use wisdom::ordering::{mvv_lva, rank_captures_vec};
use wisdom::perft::perft;
use wisdom::rules::{
    apply_move_to_game, get_legal_moves, is_safe_move, HistoryEntry, RepetitionResult, Rules,
};
use wisdom::scores::{Bound, NoScores, ScoreCache, ScoreTable};
use wisdom::search::{negamax, quiescence, search_best_move, INFINITY, MATE_VALUE};
use wisdom::ucci::parse_ucci_move;
use wisdom::xiangqi::Xiangqi;

fn board_of(fen: &str) -> Board {
    let mut board = Board::new();
    parse_fen(&mut board, fen);
    board
}

const START: &str = "rnbakabnr/9/1c5c1/p1p1p1p1p/9/9/P1P1P1P1P/1C5C1/9/RNBAKABNR w";

#[test]
fn perft_of_the_start() {
    let rules = Xiangqi::new();
    let mut board = board_of(START);
    assert_eq!(perft(&rules, &mut board, 0), Some(1));
    assert_eq!(perft(&rules, &mut board, 1), Some(44));
    assert_eq!(perft(&rules, &mut board, 2), Some(1920));
}

#[test]
fn perft_of_the_start_three_deep() {
    let rules = Xiangqi::new();
    let mut board = board_of(START);
    assert_eq!(perft(&rules, &mut board, 3), Some(79666));
}

#[test]
fn perft_of_a_middle_game() {
    let rules = Xiangqi::new();
    let mut board = board_of("r1ba1a3/4kn3/2n1b4/pNp1p1p1p/4c4/6P2/P1P2R2P/1CcC5/9/2BAKAB2 w");
    assert_eq!(perft(&rules, &mut board, 1), Some(38));
    assert_eq!(perft(&rules, &mut board, 2), Some(1128));
}

#[test]
fn captures_come_before_quiet_moves() {
    let rules = Xiangqi::new();
    let mut board = board_of(START);
    assert_eq!(rules.generate_captures(&board).len(), 2);
    assert_eq!(rules.generate_quiets(&board).len(), 42);
    let legal = get_legal_moves(&rules, &mut board);
    assert_eq!(legal.len(), 44);
    assert!(legal[0].is_capture() && legal[1].is_capture() && !legal[2].is_capture());
}

#[test]
fn a_move_that_opens_the_kings_is_not_safe() {
    let mut board = board_of("4k4/9/9/9/4R4/9/9/9/9/4K4 w");
    let aside = Move::new(4 * 16 + 4, 4 * 16 + 3, false);
    let ahead = Move::new(4 * 16 + 4, 3 * 16 + 4, false);
    assert!(!is_safe_move(&mut board, aside));
    assert!(is_safe_move(&mut board, ahead));
}

#[test]
fn a_pawn_taking_a_rook_ranks_first() {
    let rules = Xiangqi::new();
    let board = board_of("3k5/9/9/r1n6/P1R6/9/9/9/9/4K4 w");
    let pawn_takes_rook = Move::new(4 * 16, 3 * 16, true);
    let rook_takes_horse = Move::new(4 * 16 + 2, 3 * 16 + 2, true);
    assert_eq!(mvv_lva(&rules, &board, pawn_takes_rook), 89900);
    assert_eq!(mvv_lva(&rules, &board, rook_takes_horse), 39100);
    let ranked = rank_captures_vec(&rules, &board, &vec![rook_takes_horse, pawn_takes_rook]);
    assert!(ranked == vec![pawn_takes_rook, rook_takes_horse]);
}

#[test]
fn evaluation_is_the_material_balance() {
    let rules = Xiangqi::new();
    assert_eq!(rules.evaluate(&board_of(START)), 0);
    assert_eq!(rules.evaluate(&board_of("3k5/9/9/9/9/9/9/9/4R4/4K4 w")), 900);
    assert_eq!(rules.evaluate(&board_of("3k5/9/9/9/9/9/9/9/4R4/4K4 b")), -900);
}

#[test]
fn quiescence_takes_what_hangs() {
    let rules = Xiangqi::new();
    let mut board = board_of("3k5/9/9/r8/P8/9/9/9/9/4K4 w");
    assert_eq!(rules.evaluate(&board), -800);
    assert_eq!(quiescence(&rules, &mut board, -INFINITY, INFINITY), 100);
    assert_eq!(quiescence(&rules, &mut board, -INFINITY, 50), 50);
    assert_eq!(quiescence(&rules, &mut board, 200, 300), 200);
}

#[test]
fn negamax_scores_a_mate() {
    let rules = Xiangqi::new();
    // The black king is mated by two rooks.
    let mut board = board_of("3k1R3/4R4/9/9/9/9/9/9/9/4K4 b");
    let mut history: Vec<HistoryEntry> = Vec::new();
    let mut table = NoScores {};
    let score =
        negamax(&rules, &mut board, 1, 3, -INFINITY, INFINITY, &mut table, &mut history);
    assert_eq!(score, Some(-MATE_VALUE + 3));
}

#[test]
fn the_search_finds_a_win_in_one() {
    let rules = Xiangqi::new();
    let mut board = board_of("4k4/R8/9/9/9/9/9/9/9/1R1K5 w");
    let mut table = ScoreCache::new(1024);
    let best = search_best_move(&rules, &mut board, 2, &mut table, &Vec::new()).unwrap();
    assert!(board.side_to_move == Color::Red);
    assert!(is_safe_move(&mut board, best));
    board.make_move(best);
    assert!(get_legal_moves(&rules, &mut board).is_empty());
}

#[test]
fn the_search_agrees_with_and_without_a_table() {
    let rules = Xiangqi::new();
    let mut board = board_of("3k5/9/9/r3p4/P1R6/9/2N6/9/9/4K4 w");
    let mut cache = ScoreCache::new(4096);
    let with = search_best_move(&rules, &mut board, 2, &mut cache, &Vec::new());
    let without = search_best_move(&rules, &mut board, 2, &mut NoScores {}, &Vec::new());
    assert!(with == without);
    assert!(with == parse_ucci_move(&board, "a5a6"));
}

#[test]
fn the_search_gives_up_where_a_counter_runs_out() {
    let rules = Xiangqi::new();
    let mut board = board_of(START);
    assert!(search_best_move(&rules, &mut board, 0, &mut NoScores {}, &Vec::new()).is_none());
}

#[test]
fn an_exact_score_is_found_again() {
    let mut table = ScoreCache::new(7);
    assert!(table.probe(5, 1, 0, -10, 10).is_none());
    table.record(5, 3, 2, 19990, Bound::Exact, None);
    assert!(table.probe(5, 3, 2, -10, 10) == Some((19990, None)));
    assert!(table.probe(5, 3, 4, -10, 10) == Some((19988, None)));
    assert!(table.probe(5, 4, 2, -10, 10) == Some((i32::MIN, None)));
    assert!(table.probe(12, 1, 0, -10, 10).is_none());
    table.record(12, 3, 0, 40, Bound::Beta, Some(Move(9)));
    assert!(table.probe(12, 3, 0, 0, 30) == Some((40, Some(Move(9)))));
    assert!(table.probe(12, 3, 0, 0, 50) == Some((i32::MIN, Some(Move(9)))));
    table.record(12, 3, 0, 40, Bound::Alpha, None);
    assert!(table.probe(12, 3, 0, 50, 60) == Some((40, None)));
    assert!(table.probe(12, 3, 0, 30, 60) == Some((i32::MIN, None)));
    assert!(table.probe(5, 3, 2, -10, 10).is_none());
}

fn play(rules: &Xiangqi, board: &mut Board, history: &mut Vec<HistoryEntry>, moves: &str) {
    for text in moves.split(' ') {
        let m = parse_ucci_move(board, text).unwrap();
        apply_move_to_game(rules, board, m, history);
    }
}

#[test]
fn a_quiet_repetition_is_a_draw() {
    let rules = Xiangqi::new();
    let mut board = board_of(START);
    let mut history = Vec::new();
    play(&rules, &mut board, &mut history, "b0c2 b9c7 c2b0");
    assert!(rules.judge_repetition(&board, &history, 1) == RepetitionResult::Undecided);
    play(&rules, &mut board, &mut history, "c7b9 b0c2");
    assert!(rules.judge_repetition(&board, &history, 1) == RepetitionResult::Draw);
    assert!(rules.judge_repetition(&board, &history, 2) == RepetitionResult::Undecided);
    assert!(rules.judge_prune(&board, &history, 0));
    assert!(!rules.judge_prune(&board, &history, 1));
    assert!(history[0].is_reversible && !history[0].is_check);
}

#[test]
fn perpetual_check_loses() {
    let rules = Xiangqi::new();
    let mut board = board_of("3k5/9/9/9/9/9/9/9/R8/5K3 w");
    let mut history = Vec::new();
    play(&rules, &mut board, &mut history, "a1d1 d9e9 d1e1 e9d9 e1d1");
    // Red has checked throughout, so it is won for black.
    assert!(rules.judge_repetition(&board, &history, 1) == RepetitionResult::Win);
    assert!(history.iter().step_by(2).all(|e| e.is_check));
    play(&rules, &mut board, &mut history, "d9e9");
    assert!(rules.judge_repetition(&board, &history, 1) == RepetitionResult::Loss);
}

#[test]
fn a_capture_is_not_reversible() {
    let rules = Xiangqi::new();
    let mut board = board_of(START);
    let mut history = Vec::new();
    play(&rules, &mut board, &mut history, "b2b9 a3a4");
    assert!(!history[0].is_reversible);
    // A pawn's step forward cannot be taken back either.
    play(&rules, &mut board, &mut history, "a6a5");
    assert!(!history[2].is_reversible);
}

#[test]
fn threats_are_unprotected_pieces_under_attack() {
    let rules = Xiangqi::new();
    let board = board_of("3k5/9/9/r8/P8/9/9/9/9/4K4 w");
    assert_eq!(rules.get_unprotected_threats(&board, Color::Red), 1u128 << 27);
    assert_eq!(rules.get_unprotected_threats(&board, Color::Black), 1u128 << 36);
    let mut protected = board;
    protected.set_piece(27 / 9 * 16 + 8, Some(Piece::new(PieceType::Rook, Color::Black)));
    assert_eq!(rules.get_unprotected_threats(&protected, Color::Red), 0);
}
