//! Tree search, evaluation batches and tables, self-play, a game at the board.

use wisdom::board::{Board, Color};
use wisdom::eval_queue::{EvalBatch, EvalRequest};
use wisdom::fen::parse_fen;
use wisdom::gui::{display_col, display_row, format_move, Ending, GameMode, Session, Status};
use wisdom::mcts::{playouts_per_thread, Action, AtomicMCTSNode, Leaf, Playout, LOCKED, MCTS};
use wisdom::moves::Move;
use wisdom::nn::board_to_tensor;
use wisdom::rules::{get_legal_moves, Rules};
use wisdom::scores::ScoreCache;
use wisdom::selfplay::{
    checkpoint_path, choose_items, games_in_batch, latest_version, plays_in_round, training_order,
    trains_in_round, version_of, Game, Turn,
};
use wisdom::tt::TranspositionTable;
use wisdom::ucci::{parse_ucci_move, Engine, Response};
use wisdom::xiangqi::Xiangqi;

fn board_of(fen: &str) -> Board {
    let mut board = Board::new();
    parse_fen(&mut board, fen);
    board
}

fn start() -> Board {
    let mut board = Board::new();
    board.set_initial_position();
    board
}

#[test]
fn nodes_hold_what_they_are_given() {
    let mut node = AtomicMCTSNode::new();
    assert_eq!(node.get_move(), 0);
    node.set_data(1234, 0.25f32.to_bits());
    assert_eq!(node.get_move(), 1234);
    assert_eq!(f32::from_bits(node.get_prior_prob()), 0.25);
    node.add_value(500_000);
    node.add_value(-1_500_000);
    assert_eq!(node.get_value(), -1_000_000);
}

#[test]
fn children_are_taken_from_the_pool() {
    let mut mcts = MCTS::new(10);
    assert_eq!(mcts.tree.len(), 10);
    assert_eq!(mcts.allocate_children(4), Some(1));
    assert_eq!(mcts.allocate_children(5), Some(5));
    assert_eq!(mcts.allocate_children(1), None);
    assert_eq!(mcts.next_node_idx, 10);
    assert_eq!(mcts.allocate_children(0), Some(10));
}

/// Goes down the tree once, with the given scores at the root.
fn descend(mcts: &mut MCTS, rules: &Xiangqi, board: &Board, scores: &dyn Fn(u32) -> Vec<u32>) -> Playout {
    let mut playout = Playout::start(board);
    let mut at = 0;
    while let Some(children) = mcts.enter(at) {
        let (child, m) = mcts.pick_child(children, &scores(children.count));
        playout.play(rules, child, m);
        at = child;
    }
    playout
}

#[test]
fn a_playout_leaves_its_value() {
    let rules = Xiangqi::new();
    let board = start();
    let mut mcts = MCTS::new(1000);
    let legal = mcts.begin_search(&rules, &board);
    assert_eq!(legal.len(), 44);
    assert_eq!(mcts.tree[0].prior_prob, 1.0f32.to_bits());
    let priors = vec![(1.0f32 / 44.0).to_bits(); 44];
    assert!(mcts.expand(0, &legal, &priors));
    assert_eq!((mcts.tree[0].children_index, mcts.tree[0].num_children), (1, 44));
    assert_eq!(mcts.tree[3].get_move(), legal[2].0);

    // The third child has the greatest score.
    let scores = |n: u32| {
        let mut s = vec![0.0f32.to_bits(); n as usize];
        s[2] = 0.5f32.to_bits();
        s
    };
    let mut playout = descend(&mut mcts, &rules, &board, &scores);
    assert_eq!(playout.path, vec![0, 3]);
    assert_eq!(playout.history.len(), 1);
    assert_eq!(mcts.tree[3].visits, 1);
    assert_eq!(mcts.tree[3].total_value, -1_000_000);
    match playout.judge_leaf(&rules) {
        Leaf::Open(moves) => assert_eq!(moves.len(), 44),
        Leaf::Decided(_) => unreachable!(),
    }
    // The leaf is worth 1 to the side to move there.
    assert!(mcts.can_credit(&playout.path, 0, 2_000_000));
    mcts.backpropagate(&playout.path, 0, 2_000_000);
    assert_eq!(mcts.tree[3].total_value, -1_000_000);
    assert_eq!(mcts.tree[0].total_value, 1_000_000);
    assert_eq!((mcts.tree[0].visits, mcts.tree[3].visits), (1, 1));
}

#[test]
fn credits_that_overflow_are_noticed() {
    let mut mcts = MCTS::new(2);
    mcts.tree[1].total_value = i64::MAX;
    assert!(!mcts.can_credit(&vec![0, 1], 1, 0));
    assert!(mcts.can_credit(&vec![0, 1], 0, 1));
}

#[test]
fn a_leaf_is_locked_once() {
    let mut mcts = MCTS::new(4);
    assert!(mcts.lock_leaf(0));
    assert_eq!(mcts.tree[0].num_children, LOCKED);
    assert!(!mcts.lock_leaf(0));
    assert!(mcts.enter(0).is_none());
    // There is no room for four children: the leaf is a leaf again.
    let moves = vec![Move(1), Move(2), Move(3), Move(4)];
    assert!(!mcts.expand(0, &moves, &vec![0; 4]));
    assert_eq!(mcts.tree[0].num_children, 0);
    assert!(mcts.expand(0, &moves[..3].to_vec(), &vec![0; 3]));
    assert_eq!(mcts.tree[0].num_children, 3);
}

#[test]
fn without_a_score_the_first_child_and_no_move() {
    let mut mcts = MCTS::new(4);
    assert!(mcts.expand(0, &vec![Move(7), Move(8)], &vec![0; 2]));
    let children = mcts.enter(0).unwrap();
    assert_eq!((children.start, children.count, children.parent_visits), (1, 2, 1));
    let nan = f32::NAN.to_bits();
    let (child, m) = mcts.pick_child(children, &vec![nan, nan]);
    assert!(child == 1 && m == Move(0));
    let (child, m) = mcts.pick_child(children, &vec![nan, 0]);
    assert!(child == 2 && m == Move(8));
}

#[test]
fn leaves_that_the_rules_decide() {
    let rules = Xiangqi::new();
    // Mated.
    let mut playout = Playout::start(&board_of("3k1R3/4R4/9/9/9/9/9/9/9/4K4 b"));
    assert!(matches!(playout.judge_leaf(&rules), Leaf::Decided(-1)));
    // A quiet repetition.
    let mut playout = Playout::start(&start());
    for text in ["b0c2", "b9c7", "c2b0", "c7b9", "b0c2"] {
        let m = parse_ucci_move(&playout.board, text).unwrap();
        playout.play(&rules, 1, m);
    }
    assert!(matches!(playout.judge_leaf(&rules), Leaf::Decided(0)));
    // Red checks throughout: won for black.
    let mut playout = Playout::start(&board_of("3k5/9/9/9/9/9/9/9/R8/5K3 w"));
    for text in ["a1d1", "d9e9", "d1e1", "e9d9", "e1d1"] {
        let m = parse_ucci_move(&playout.board, text).unwrap();
        playout.play(&rules, 1, m);
    }
    assert!(matches!(playout.judge_leaf(&rules), Leaf::Decided(1)));
    let m = parse_ucci_move(&playout.board, "d9e9").unwrap();
    playout.play(&rules, 1, m);
    assert!(matches!(playout.judge_leaf(&rules), Leaf::Decided(-1)));
}

#[test]
fn the_most_visited_move_is_found() {
    let mut mcts = MCTS::new(8);
    let moves: Vec<Move> = (1..8).map(Move).collect();
    assert!(mcts.expand(0, &moves, &vec![0; 7]));
    let (best, metrics) = mcts.search_result();
    assert!(best == Move(0) && metrics.top_moves.is_empty());
    for (i, visits) in [3, 9, 0, 9, 1, 4, 2].iter().enumerate() {
        mcts.tree[i + 1].visits = *visits;
    }
    mcts.tree[0].visits = 28;
    mcts.tree[2].total_value = 4_500_000;
    let (best, metrics) = mcts.search_result();
    assert!(best == Move(2));
    assert_eq!((metrics.root_visits, metrics.best_child_visits), (28, 9));
    assert_eq!(metrics.best_child_value, 4_500_000);
    let top: Vec<(u16, u32)> = metrics.top_moves.iter().map(|(m, v)| (m.0, *v)).collect();
    assert_eq!(top, vec![(2, 9), (4, 9), (6, 4), (1, 3), (7, 2)]);
}

#[test]
fn evaluations_are_found_again() {
    let mut table = TranspositionTable::new(1);
    // 43690 entries of 24 bytes round up to 65536, of which half are made.
    assert_eq!(table.entries.len(), 32768);
    assert!(table.probe(0).is_none());
    table.record(5, 0.5f32.to_bits(), vec![1, 2, 3]);
    let found = table.probe(5).unwrap();
    assert_eq!((found.value, found.policy.clone()), (0.5f32.to_bits(), vec![1, 2, 3]));
    assert!(table.probe(5 + 32768).is_none());
    table.record(5 + 32768, 7, vec![]);
    assert!(table.probe(5).is_none());
    assert_eq!(table.probe(5 + 32768).unwrap().value, 7);
}

#[test]
fn answers_go_to_their_requests() {
    let tensor_data = board_to_tensor(&start());
    let mut batch = EvalBatch::new();
    assert!(batch.wants_more(2, false));
    batch.push(&EvalRequest { tensor_data, need_policy: false });
    assert!(!batch.any_needs_policy());
    batch.push(&EvalRequest { tensor_data, need_policy: true });
    assert!(batch.any_needs_policy());
    assert!(!batch.wants_more(2, false) && batch.wants_more(3, false) && !batch.wants_more(3, true));
    assert_eq!(batch.inputs.len(), 2520);
    assert!(batch.inputs[1260..] == tensor_data);
    let policies: Vec<u32> = (0..16200).collect();
    let answers = batch.dispatch(&vec![11, 12], &policies);
    assert_eq!((answers[0].value, answers[1].value), (11, 12));
    assert!(answers[0].policy.is_none());
    assert!(answers[1].policy == Some((8100..16200).collect()));
    batch.clear();
    assert!(batch.inputs.is_empty() && batch.needs.is_empty());
}

#[test]
fn a_game_goes_on_until_it_is_over() {
    let rules = Xiangqi::new();
    let mut game = Game::new();
    match game.next_turn(&rules) {
        Turn::Choose(moves) => assert_eq!(moves.len(), 44),
        Turn::Over(_) => unreachable!(),
    }
    let m = parse_ucci_move(&game.board, "b2e2").unwrap();
    game.play(&rules, m, 0.5f32.to_bits());
    let m = parse_ucci_move(&game.board, "h9g7").unwrap();
    game.play(&rules, m, 0);
    assert_eq!((game.move_count, game.history.len()), (2, 2));
    assert_eq!(game.records[0].fen, start().to_fen());
    assert_eq!(game.records[0].policy, 64 * 90 + 67);
    assert_eq!(game.records[1].policy, 7 * 90 + 24);
    assert_eq!(game.records[0].result(Some(Color::Red)), 1);
    assert_eq!(game.records[1].result(Some(Color::Red)), -1);
    assert_eq!(game.records[1].result(None), 0);
    game.move_count = 401;
    assert!(matches!(game.next_turn(&rules), Turn::Over(None)));
}

#[test]
fn games_end_in_mate_stalemate_and_repetition() {
    let rules = Xiangqi::new();
    let mut game = Game::new();
    game.board = board_of("3k1R3/4R4/9/9/9/9/9/9/9/4K4 b");
    assert!(matches!(game.next_turn(&rules), Turn::Over(Some(Color::Red))));
    game.board = board_of("3k5/4R4/9/9/9/9/9/9/9/4K4 b");
    assert!(matches!(game.next_turn(&rules), Turn::Over(None)));
    let mut game = Game::new();
    game.board = board_of("3k5/9/9/9/9/9/9/9/R8/5K3 w");
    for text in ["a1d1", "d9e9", "d1e1", "e9d9", "e1d1"] {
        let m = parse_ucci_move(&game.board, text).unwrap();
        game.play(&rules, m, 0);
    }
    assert!(matches!(game.next_turn(&rules), Turn::Over(Some(Color::Black))));
    let m = parse_ucci_move(&game.board, "d9e9").unwrap();
    game.play(&rules, m, 0);
    assert!(matches!(game.next_turn(&rules), Turn::Over(Some(Color::Black))));
}

#[test]
fn games_are_played_in_batches() {
    assert_eq!(games_in_batch(0, 300, 128), 128);
    assert_eq!(games_in_batch(2, 300, 128), 44);
}

#[test]
fn versions_are_read_off_file_names() {
    assert_eq!(version_of("xiangqi_net_version_12.mpk"), Some(12));
    assert_eq!(version_of("xiangqi_net_version_.mpk"), None);
    assert_eq!(version_of("xiangqi_net_version_12.bin"), None);
    assert_eq!(version_of("net_version_12.mpk"), None);
    let names = ["xiangqi_net_version_3.mpk", "x", "xiangqi_net_version_11.mpk"];
    assert_eq!(latest_version(&names.iter().map(|s| s.to_string()).collect()), 11);
    assert_eq!(latest_version(&vec![]), 0);
    assert_eq!(checkpoint_path("./m", 11), "./m/xiangqi_net_version_11.mpk");
    assert_eq!(checkpoint_path("./m", 0), "./m/xiangqi_net_base.mpk");
}

#[test]
fn training_items_are_chosen_by_an_order() {
    assert_eq!(choose_items(2, &vec![1, 0, 2]), vec![0, 1, 3, 2, 4]);
    let long: Vec<usize> = (0..60_000).rev().collect();
    let picked = choose_items(1, &long);
    assert_eq!(picked.len(), 50_001);
    assert_eq!((picked[0], picked[1]), (0, 60_000));
}

#[test]
fn training_items_are_chosen_at_random() {
    let order = training_order(10, 1000);
    let mut sorted = order.clone();
    sorted.sort();
    assert_eq!(sorted, (0..1010).collect::<Vec<usize>>());
    assert!(order != sorted);
    let sampled = training_order(5, 70_000);
    assert_eq!(sampled.len(), 50_005);
    let mut distinct = sampled.clone();
    distinct.sort();
    distinct.dedup();
    assert_eq!(distinct.len(), 50_005);
    assert_eq!(distinct[..5].to_vec(), vec![0, 1, 2, 3, 4]);
}

#[test]
fn the_board_is_drawn_from_the_players_side() {
    assert_eq!((display_row(2, Color::Red), display_col(3, Color::Red)), (2, 3));
    assert_eq!((display_row(2, Color::Black), display_col(3, Color::Black)), (7, 5));
    assert_eq!(format_move(Move::new(7 * 16 + 1, 7 * 16 + 4, false)), "b2e2");
}

#[test]
fn clicks_select_and_move() {
    let rules = Xiangqi::new();
    let mut session = Session::new();
    assert!(session.is_human_turn());
    session.click(&rules, 4, 4);
    assert!(session.selected_sq.is_none());
    session.click(&rules, 7, 1);
    assert_eq!(session.selected_sq, Some(7 * 16 + 1));
    assert_eq!(session.legal_moves.len(), 12);
    session.click(&rules, 9, 0);
    assert_eq!(session.selected_sq, Some(9 * 16));
    session.click(&rules, 0, 0);
    assert!(session.selected_sq.is_none() && session.legal_moves.is_empty());
    session.click(&rules, 10, 0);
    session.click(&rules, 7, 1);
    session.click(&rules, 7, 4);
    assert!(session.board.side_to_move == Color::Black);
    assert_eq!(session.history.len(), 1);
    assert_eq!(session.status, Status::YourTurn);
    assert!(!session.is_human_turn() && !session.game_over);
    assert!(session.start_engine_turn(&rules));
    let m = parse_ucci_move(&session.board, "h9g7").unwrap();
    session.engine_move(&rules, m);
    assert_eq!(session.status, Status::Engine);
    assert!(session.is_human_turn());
}

#[test]
fn black_clicks_on_a_turned_board() {
    let rules = Xiangqi::new();
    let mut session = Session::new();
    session.set_side(Color::Black);
    let m = parse_ucci_move(&session.board, "b2e2").unwrap();
    session.engine_move(&rules, m);
    session.click(&rules, 9, 0);
    assert_eq!(session.selected_sq, Some(8));
}

#[test]
fn settings_start_a_new_game() {
    let mut session = Session::new();
    session.game_over = true;
    session.ending = Ending::Checkmate;
    session.set_mode(GameMode::EngineVsEngine);
    assert!(!session.game_over && !session.is_human_turn());
    assert_eq!(session.ending.text(), "GAME OVER");
    assert_eq!(session.status.text(), Some("Ready"));
    assert_eq!(session.simulations, 800);
    for _ in 0..10 {
        session.fewer_simulations();
    }
    assert_eq!(session.simulations, 100);
    for _ in 0..60 {
        session.more_simulations();
    }
    assert_eq!(session.simulations, 5000);
}

#[test]
fn a_game_at_the_board_ends() {
    let rules = Xiangqi::new();
    // The player mates.
    let mut session = Session::new();
    session.board = board_of("3k5/4R4/9/9/9/9/9/9/5R3/4K4 w");
    session.click(&rules, 8, 5);
    session.click(&rules, 0, 5);
    assert!(session.game_over);
    assert_eq!(session.ending.text(), "Checkmate!");
    assert_eq!(session.status.text(), Some("CHECKMATE"));
    // The engine has no move.
    let mut session = Session::new();
    session.board = board_of("3k5/4R4/9/9/9/9/9/9/9/4K4 b");
    assert!(!session.start_engine_turn(&rules));
    assert!(session.game_over);
    // The player checks throughout.
    let mut session = Session::new();
    session.board = board_of("3k5/9/9/9/9/9/9/9/R8/5K3 w");
    let clicks = [(8, 0), (8, 3), (8, 3), (8, 4), (8, 4), (8, 3), (8, 3), (8, 4), (8, 4), (8, 3)];
    let replies = ["d9e9", "e9d9", "d9e9", "e9d9"];
    for (i, pair) in clicks.chunks(2).enumerate() {
        session.click(&rules, pair[0].0, pair[0].1);
        session.click(&rules, pair[1].0, pair[1].1);
        if i < replies.len() {
            assert!(!session.game_over);
            let m = parse_ucci_move(&session.board, replies[i]).unwrap();
            session.engine_move(&rules, m);
        }
    }
    assert_eq!(session.ending.text(), "Rule Violation: You Lose!");
    assert_eq!(session.status.text(), Some("LOST"));
}

#[test]
fn legal_moves_leave_the_board_as_it_was() {
    let rules = Xiangqi::new();
    let mut board = start();
    let before = board.squares;
    let key = rules.zobrist_key(&board);
    get_legal_moves(&rules, &mut board);
    assert!(board.squares == before && rules.zobrist_key(&board) == key);
}

#[test]
fn a_playout_step_by_step() {
    let rules = Xiangqi::new();
    let board = start();
    let mut mcts = MCTS::new(1000);
    mcts.begin_search(&rules, &board);

    // The root is a leaf: it is locked, and waits to be evaluated.
    let (first, action) = Playout::begin(&mut mcts, &rules, &board);
    let moves = match action {
        Action::Evaluate(moves) => moves,
        _ => unreachable!(),
    };
    assert_eq!(moves.len(), 44);
    assert_eq!(mcts.tree[0].num_children, LOCKED);

    // A second playout finds it locked.
    let (second, action) = Playout::begin(&mut mcts, &rules, &board);
    assert!(matches!(action, Action::Wait));
    assert_eq!((mcts.tree[0].visits, mcts.tree[0].total_value), (2, -2_000_000));

    let priors = vec![(1.0f32 / 44.0).to_bits(); 44];
    assert!(first.evaluated(&mut mcts, &moves, &priors, 500_000, 1_500_000));
    assert_eq!((mcts.tree[0].children_index, mcts.tree[0].num_children), (1, 44));
    assert_eq!((mcts.tree[0].total_value, mcts.next_node_idx), (-1_500_000, 45));
    assert!(second.credit_path(&mut mcts, 1_000_000, 1_000_000));
    assert_eq!(mcts.tree[0].total_value, -500_000);

    // A third one goes on to the best child.
    let (mut third, action) = Playout::begin(&mut mcts, &rules, &board);
    let children = match action {
        Action::Score(children) => children,
        _ => unreachable!(),
    };
    assert_eq!((children.start, children.count, children.parent_visits), (1, 44, 2));
    let mut scores = vec![0u32; 44];
    scores[4] = 0.25f32.to_bits();
    let action = third.choose_child(&mut mcts, &rules, children, &scores);
    assert!(matches!(action, Action::Evaluate(_)));
    assert_eq!(third.path, vec![0, 5]);
    assert_eq!(mcts.tree[5].num_children, LOCKED);
}

/// One playout, with the given score for each child, and these credits at its leaf.
fn play_out(
    mcts: &mut MCTS,
    rules: &Xiangqi,
    board: &Board,
    score: &dyn Fn(usize) -> f32,
    credits: (i64, i64),
) -> Vec<usize> {
    let (mut playout, mut action) = Playout::begin(mcts, rules, board);
    loop {
        match action {
            Action::Score(children) => {
                let scores: Vec<u32> =
                    (0..children.count as usize).map(|k| score(k).to_bits()).collect();
                action = playout.choose_child(mcts, rules, children, &scores);
            }
            Action::Evaluate(moves) => {
                let priors = vec![0; moves.len()];
                assert!(playout.evaluated(mcts, &moves, &priors, credits.0, credits.1));
                return playout.path;
            }
            Action::Done => return playout.path,
            _ => unreachable!(),
        }
    }
}

#[test]
fn every_playout_is_a_visit_to_the_root_and_to_one_of_its_children() {
    let rules = Xiangqi::new();
    let board = start();
    let mut mcts = MCTS::new(20_000);
    let moves = mcts.begin_search(&rules, &board);
    assert!(mcts.expand(0, &moves, &vec![0; moves.len()]));
    for n in 1..31u32 {
        let best = (n as usize * n as usize) % 7;
        let path = play_out(&mut mcts, &rules, &board, &|k| if k == best { 1.0 } else { 0.0 }, (1, 2));
        assert_eq!((path[0], path[1]), (0, best + 1));
        let below: u32 = mcts.tree[1..1 + moves.len()].iter().map(|node| node.visits).sum();
        assert_eq!((mcts.tree[0].visits, below), (n, n));
    }
    let (best, metrics) = mcts.search_result();
    assert_eq!(metrics.root_visits, 30);
    assert!(best == metrics.top_moves[0].0);
    assert_eq!(metrics.best_child_visits, metrics.top_moves[0].1);
    let shown: u32 = metrics.top_moves.iter().map(|(_, visits)| visits).sum();
    assert_eq!(shown, 30);
}

#[test]
fn a_playout_leaves_the_credits_it_is_given() {
    let rules = Xiangqi::new();
    let board = start();
    let mut mcts = MCTS::new(1000);
    let moves = mcts.begin_search(&rules, &board);
    assert!(mcts.expand(0, &moves, &vec![0; moves.len()]));
    // The leaf and every second node above it get the first credit, the others the second.
    let path = play_out(&mut mcts, &rules, &board, &|k| -(k as f32), (750_001, 1_249_999));
    assert_eq!(path, vec![0, 1]);
    assert_eq!((mcts.tree[1].visits, mcts.tree[1].total_value), (1, 750_001 - 1_000_000));
    assert_eq!((mcts.tree[0].visits, mcts.tree[0].total_value), (1, 1_249_999 - 1_000_000));
}

#[test]
fn playouts_are_shared_among_threads() {
    assert_eq!(playouts_per_thread(800, 8), 100);
    assert_eq!(playouts_per_thread(801, 8), 100);
    assert_eq!(playouts_per_thread(7, 8), 0);
}

#[test]
fn a_playout_without_a_piece_to_move() {
    let rules = Xiangqi::new();
    let board = board_of("3k5/9/9/9/9/9/9/9/R8/5K3 w");
    let mut mcts = MCTS::new(100);
    let moves = mcts.begin_search(&rules, &board);
    assert!(mcts.expand(0, &moves, &vec![0; moves.len()]));
    let (mut playout, action) = Playout::begin(&mut mcts, &rules, &board);
    let children = match action {
        Action::Score(children) => children,
        _ => unreachable!(),
    };
    // No score is a number, so no move is chosen, and the corner it would leave is empty.
    let nan = vec![f32::NAN.to_bits(); moves.len()];
    assert!(matches!(playout.choose_child(&mut mcts, &rules, children, &nan), Action::NoPiece));
    assert_eq!(playout.path, vec![0]);
}

#[test]
fn a_playout_that_ends_at_once() {
    let rules = Xiangqi::new();
    let mated = board_of("3k1R3/4R4/9/9/9/9/9/9/9/4K4 b");
    let mut mcts = MCTS::new(4);
    let (_, action) = Playout::begin(&mut mcts, &rules, &mated);
    assert!(matches!(action, Action::Done));
    // Lost for the side to move: won for the one that moved here.
    assert_eq!((mcts.tree[0].visits, mcts.tree[0].total_value), (1, 1_000_000));
    mcts.tree[0].total_value = i64::MIN;
    let (_, action) = Playout::begin(&mut mcts, &rules, &mated);
    assert!(matches!(action, Action::Overflow));
    assert_eq!(mcts.tree[0].visits, 1);
    let playout = Playout::start(&mated);
    mcts.tree[0].total_value = i64::MAX;
    assert!(!playout.credit_path(&mut mcts, 1, 0));
    assert_eq!(mcts.tree[0].total_value, i64::MAX);
}

fn said(response: Response) -> String {
    match response {
        Response::Text(text) => text,
        Response::Quit | Response::Failed => panic!("no text"),
    }
}

#[test]
fn the_engine_answers_lines() {
    let rules = Xiangqi::new();
    let mut engine = Engine::new(ScoreCache::new(1 << 10));
    assert_eq!(
        said(engine.respond(&rules, "ucci")),
        "id name Wisdom Engine\nid author Quang Huy\nucciok\n"
    );
    assert_eq!(said(engine.respond(&rules, "  isready \r")), "readyok\n");
    assert_eq!(said(engine.respond(&rules, "")), "");
    assert_eq!(said(engine.respond(&rules, "hello")), "");
    assert_eq!(said(engine.respond(&rules, "eval")), "info eval 0\n");
    assert_eq!(said(engine.respond(&rules, "position startpos moves h2e2 h9g7")), "");
    let shown = said(engine.respond(&rules, "d"));
    assert!(shown.starts_with("Side to move: Red\nr n b a k a b . r \n"));
    assert!(shown.contains(". C . . C . . . . \n"));
    assert!(matches!(engine.respond(&rules, "quit"), Response::Quit));
}

#[test]
fn the_engine_tells_a_move() {
    let rules = Xiangqi::new();
    let mut engine = Engine::new(ScoreCache::new(1 << 10));
    // The rook on the tenth rank is free to take.
    let line = "position fen 3k4r/9/9/9/9/9/9/9/8R/5K3 w - - 0 1";
    assert_eq!(said(engine.respond(&rules, line)), "");
    assert_eq!(said(engine.respond(&rules, "go depth 1")), "bestmove i1i9\n");
    // The move that was told is read back and played.
    let line = "position fen 3k4r/9/9/9/9/9/9/9/8R/5K3 w - - 0 1 moves i1i9";
    assert_eq!(said(engine.respond(&rules, line)), "");
    assert!(said(engine.respond(&rules, "d")).contains(". . . k . . . . R \n"));
}

#[test]
fn lines_that_cannot_be_carried_out() {
    let rules = Xiangqi::new();
    let mut engine = Engine::new(ScoreCache::new(16));
    let before = said(engine.respond(&rules, "d"));
    let line = "position startpos moves h2e2 e4e5";
    assert!(matches!(engine.respond(&rules, line), Response::Failed));
    assert_eq!(said(engine.respond(&rules, "d")), before);
    // Mated: there is nothing to search.
    let line = "position fen 3k1R3/4R4/9/9/9/9/9/9/9/4K4 b - - 0 1";
    assert_eq!(said(engine.respond(&rules, line)), "");
    assert!(matches!(engine.respond(&rules, "go"), Response::Failed));
    let score = said(engine.respond(&rules, "eval"));
    assert!(score.starts_with("info eval -"), "{}", score);
}

#[test]
fn rounds_of_games_and_training() {
    assert!(plays_in_round(1, 39_999));
    assert!(!plays_in_round(1, 40_000));
    assert!(plays_in_round(2, 40_000));
    assert!(!trains_in_round(39_999));
    assert!(trains_in_round(40_000));
}

#[test]
fn a_full_tree_keeps_no_leaf_locked() {
    let rules = Xiangqi::new();
    let board = start();
    let mut mcts = MCTS::new(10);
    mcts.begin_search(&rules, &board);
    for round in 1..4 {
        // Each playout evaluates the root again, and none has to wait.
        let (playout, action) = Playout::begin(&mut mcts, &rules, &board);
        let moves = match action {
            Action::Evaluate(moves) => moves,
            _ => unreachable!(),
        };
        let priors = vec![0; moves.len()];
        assert!(playout.evaluated(&mut mcts, &moves, &priors, 1_500_000, 500_000));
        assert_eq!((mcts.tree[0].num_children, mcts.next_node_idx), (0, 1));
        assert_eq!((mcts.tree[0].visits, mcts.tree[0].total_value), (round, 500_000 * round as i64));
    }
}

#[test]
fn a_king_off_the_board_does_not_stop_the_search() {
    let rules = Xiangqi::new();
    let mut engine = Engine::new(ScoreCache::new(16));
    // Black's king is noted to the right of the board, on index 14.
    let line = "position fen n85k/9/9/9/9/9/9/9/9/3RK4 w - - 0 1";
    assert_eq!(said(engine.respond(&rules, line)), "");
    assert_eq!(engine.board.black_king_sq, 14);
    assert!(said(engine.respond(&rules, "go depth 1")).starts_with("bestmove "));
}
