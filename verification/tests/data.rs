//! Training data: mirrored positions, lines of records, batches.

use wisdom::board::Board;
use wisdom::dataset::{
    check_move_text, clean_fen, compress_row, get_move_index, mirror_fen,
    mirror_fen_and_swap_colors, mirror_policy, mirror_policy_180,
};
use wisdom::fen::parse_fen;
use wisdom::nn::{board_to_tensor, flip_action_index};
use wisdom::records::{
    keep_newest, read_analysis, read_record, read_shard_line, read_test_line, read_training_line,
    Analysis, Tally, TrainingLine,
};
use wisdom::text::chars_of;
use wisdom::training::{
    batch_range, check_usable, clamp_value, count_batches, make_sample, validates_after, RAMDataset, TrainItem,
    XiangqiBatcher,
};

const FEN: &str = "r1ba1a3/4kn3/2n1b4/pNp1p1p1p/4c4/6P2/P1P2R2P/1CcC5/9/2BAKAB2 b";

#[test]
fn rows_are_shortened() {
    assert_eq!(compress_row("11111111p"), "8p");
    assert_eq!(compress_row("r1c11k"), "r1c2k");
    assert_eq!(compress_row(""), "");
    assert_eq!(compress_row("111111111111"), "12");
}

#[test]
fn a_mirrored_position() {
    assert_eq!(mirror_fen("rn7/9/1c7 w - - 0 1"), "7nr/9/7c1 w");
    assert_eq!(mirror_fen("2p"), "p2");
    assert_eq!(mirror_fen(&mirror_fen(FEN)), FEN);
}

#[test]
fn a_mirrored_text_has_a_mirrored_tensor() {
    let mut board = Board::new();
    parse_fen(&mut board, FEN);
    let mut data = board_to_tensor(&board);
    wisdom::nn::mirror_tensor(&mut data);
    let mut mirrored = Board::new();
    parse_fen(&mut mirrored, &mirror_fen(FEN));
    assert!(board_to_tensor(&mirrored) == data);
}

#[test]
fn a_turned_position() {
    assert_eq!(mirror_fen_and_swap_colors("rn7/9/1C7 b"), "7c1/9/7NR w");
    let mut board = Board::new();
    parse_fen(&mut board, FEN);
    let mut turned = Board::new();
    parse_fen(&mut turned, &mirror_fen_and_swap_colors(FEN));
    assert!(board_to_tensor(&board) == board_to_tensor(&turned));
}

#[test]
fn a_fen_without_its_tail() {
    assert_eq!(clean_fen("9/9  w - - 0 1"), "9/9 w");
    assert_eq!(clean_fen(" 9/9 "), " 9/9 ");
}

#[test]
fn moves_as_action_indices() {
    assert_eq!(get_move_index("a9a9"), 0);
    assert_eq!(get_move_index("b2e2"), (7 * 9 + 1) * 90 + 7 * 9 + 4);
    assert_eq!(get_move_index("i0i0x"), 8099);
    assert!(!check_move_text(&chars_of("a9a")));
    assert!(!check_move_text(&chars_of("a99a")));
    assert!(check_move_text(&chars_of("z0a0")));
}

#[test]
fn actions_are_mirrored_and_turned() {
    assert_eq!(mirror_policy(0), 8 * 90 + 8);
    assert_eq!(mirror_policy(4 * 90 + 13), 4 * 90 + 13);
    assert_eq!(mirror_policy_180(0), 8099);
    for index in 0..8100 {
        assert_eq!(mirror_policy(mirror_policy(index)), index);
        assert_eq!(mirror_policy_180(index), flip_action_index(index));
    }
}

#[test]
fn records_are_augmented() {
    let record = read_record("rn7/9 w, 1 , 0.5 ").unwrap();
    assert_eq!((record.fen.as_str(), record.policy, record.value.as_str()), ("rn7/9 w", 1, "0.5"));
    let (line, mirrored) = record.augmented();
    assert_eq!(line, "rn7/9 w,1,0.5");
    assert_eq!(mirrored, "7nr/9 w,727,0.5");
}

#[test]
fn records_are_made_canonical() {
    let record = read_record("rn7/9 b,1,-0.5").unwrap();
    assert!(record.is_black_to_move());
    assert_eq!(record.canonical(), "9/7NR w,8098,-0.5");
    let record = read_record("rn7/9,1,-0.5").unwrap();
    assert_eq!(record.canonical(), "rn7/9,1,-0.5");
    // An index out of range matters only where it is turned.
    let record = read_record("rn7/9 w,9000,0.5").unwrap();
    assert!(!record.is_black_to_move());
    assert_eq!(record.canonical(), "rn7/9 w,9000,0.5");
}

#[test]
fn lines_without_a_record_are_passed_over() {
    for line in ["", "fen,policy,value", "9/9 w,5", "9/9 w,x,0.5", "9/9 w,-1,0.5"] {
        assert!(read_record(line).is_none());
    }
}

#[test]
fn analysed_lines() {
    assert!(matches!(read_analysis("9/9 w,0.3"), Analysis::Short));
    assert!(matches!(read_analysis("9/9 w,0.3,zz"), Analysis::BadMove));
    match read_analysis("9/9 w - - 0 1,0.3,b2e2,more") {
        Analysis::Entry { fen, value, index } => {
            assert_eq!((fen.as_str(), value.as_str(), index), ("9/9 w", "0.3", 5827));
        }
        _ => unreachable!(),
    }
}

#[test]
fn shard_lines() {
    let item = read_shard_line("9/9 w,0.25,17").unwrap();
    assert_eq!((item.fen.as_str(), item.value.as_str(), item.policy), ("9/9 w", "0.25", 17));
    assert!(read_shard_line("9/9 w,0.25").is_none());
    assert!(read_shard_line("9/9 w,0.25,17,1").is_none());
    assert!(read_shard_line("9/9 w,0.25, 17").is_none());
}

#[test]
fn the_newest_items_are_kept() {
    let mut items = vec![1, 2, 3, 4, 5];
    keep_newest(&mut items, 3);
    assert_eq!(items, vec![3, 4, 5]);
    keep_newest(&mut items, 3);
    assert_eq!(items, vec![3, 4, 5]);
}

#[test]
fn test_lines() {
    let (fen, target) = read_test_line("9/9 b,0.5,8099").unwrap();
    assert_eq!((fen.as_str(), target), ("9/9 b", 8099));
    assert!(read_test_line("9/9 b 0.5 8100").is_none());
    assert!(read_test_line("9/9 b 0.5").is_none());
    assert!(read_test_line("9/9,b,0.5,x").is_none());
}

#[test]
fn predictions_are_counted() {
    let mut tally = Tally::new();
    tally.count(5, false, 5);
    tally.count(5, true, 8094);
    tally.count(5, true, 5);
    assert_eq!((tally.valid, tally.correct), (3, 2));
}

fn item(fen: &str, value: f32, policy: usize) -> TrainItem {
    TrainItem { fen: fen.to_string(), value: value.to_bits(), policy }
}

#[test]
fn a_dataset_gives_its_items() {
    let data = RAMDataset { items: vec![item("9 w", 0.5, 3), item("8K w", 0.25, 4)] };
    assert_eq!(data.len(), 2);
    assert_eq!(data.get(1).unwrap().policy, 4);
    assert!(data.get(2).is_none());
}

#[test]
fn items_are_usable_if_their_action_can_be_turned() {
    assert!(check_usable(&item("9 w", 0.5, 9000), true));
    assert!(check_usable(&item("9 b", 0.5, 8099), true));
    assert!(!check_usable(&item("9 b", 0.5, 8100), false));
    assert!(check_usable(&item("9 w", 0.5, usize::MAX), false));
    assert!(!check_usable(&item("9 w", 0.5, usize::MAX / 810 * 810), true));
}

#[test]
fn samples_are_seen_by_the_mover() {
    let red = item("9/9/9/9/9/9/9/9/9/R8 w", 0.5, 81 * 90 + 72);
    let (tensor, policy) = make_sample(&red, false);
    assert_eq!(tensor[4 * 90 + 81], 1);
    assert_eq!(policy, 81 * 90 + 72);
    let black = item("8r/9/9/9/9/9/9/9/9/9 b", 0.5, 8 * 90 + 17);
    let (turned, turned_policy) = make_sample(&black, false);
    assert!(turned == tensor);
    assert_eq!(turned_policy, policy);
    let (mirrored, mirrored_policy) = make_sample(&red, true);
    assert_eq!(mirrored[4 * 90 + 89], 1);
    assert_eq!(mirrored_policy, 89 * 90 + 80);
}

#[test]
fn batches_are_laid_end_to_end() {
    let items = vec![item(FEN, 2.0, 5), item("R8 w", -0.25, 7)];
    let batch = XiangqiBatcher::new(true, true).batch(&items, &vec![false, true]);
    assert_eq!(batch.inputs.len(), 2520);
    assert!(batch.inputs[..1260] == make_sample(&items[0], false).0);
    assert!(batch.inputs[1260..] == make_sample(&items[1], true).0);
    assert_eq!(batch.targets_v, vec![1.0f32.to_bits(), (-0.25f32).to_bits()]);
    assert_eq!(batch.targets_p, vec![8094, 721]);
    // Without training nothing is mirrored, without clamping nothing is cut.
    let batch = XiangqiBatcher::new(false, false).batch(&items, &vec![true, true]);
    assert_eq!(batch.targets_v[0], 2.0f32.to_bits());
    assert_eq!(batch.targets_p, vec![8094, 7]);
}

#[test]
fn values_are_clamped() {
    for v in [0.0f32, 0.5, -0.5, 1.0, -1.0, 1.5, -7.0, f32::INFINITY, f32::NEG_INFINITY] {
        assert_eq!(clamp_value(v.to_bits()), v.clamp(-1.0, 1.0).to_bits());
    }
    assert!(f32::from_bits(clamp_value(f32::NAN.to_bits())).is_nan());
}

#[test]
fn an_epoch_is_cut_into_batches() {
    assert_eq!(count_batches(1000, 256), 4);
    assert_eq!(count_batches(1024, 256), 4);
    assert_eq!(count_batches(0, 256), 0);
    assert_eq!(batch_range(0, 256, 1000), (0, 256));
    assert_eq!(batch_range(3, 256, 1000), (768, 1000));
    assert!(validates_after(4, 10, 5));
    assert!(!validates_after(5, 10, 5));
    assert!(validates_after(9, 10, 4));
}

#[test]
fn large_actions_lose_their_upper_bits() {
    let large = item("9 w", 0.5, (1usize << 32) + 7);
    let batch = XiangqiBatcher::new(false, false).batch(&vec![large], &vec![true]);
    assert_eq!(batch.targets_p, vec![7]);
}

#[test]
fn lines_of_training_data() {
    match read_training_line("9 w,0.5,8099") {
        TrainingLine::Kept(r) => assert_eq!((r.fen.as_str(), r.value.as_str(), r.policy), ("9 w", "0.5", 8099)),
        _ => unreachable!(),
    }
    assert!(matches!(read_training_line("9 w,0.5,8100"), TrainingLine::OutOfRange(v) if v == "0.5"));
    assert!(matches!(read_training_line("9 w,0.5"), TrainingLine::Skipped));
    assert!(matches!(read_training_line("9 w,0.5,x"), TrainingLine::Skipped));
    assert!(matches!(read_training_line("9 w,0.5,1,"), TrainingLine::Skipped));
}

#[test]
fn texts_with_other_letters_are_mirrored() {
    let fen = "rheak1ehr/9/1c5c1/p7p/9/9/P1P3P1P/1C7/9/R1EAKAEH1 red";
    let mirrored = mirror_fen(fen);
    assert_eq!(mirrored, "rhe1kaehr/9/1c5c1/p7p/9/9/P1P3P1P/7C1/9/1HEAKAE1R red");
    assert_eq!(mirror_fen(&mirrored), fen);
    let (mut a, mut b) = (Board::new(), Board::new());
    parse_fen(&mut a, fen);
    parse_fen(&mut b, &mirrored);
    let turned = mirror_fen_and_swap_colors(fen);
    let mut c = Board::new();
    parse_fen(&mut c, &turned);
    for row in 0..10 {
        for col in 0..9 {
            let here = a.piece_at(Board::coord_to_square(row, col));
            assert!(b.piece_at(Board::coord_to_square(row, 8 - col)) == here);
            let there = c.piece_at(Board::coord_to_square(9 - row, 8 - col));
            assert!(there.map(|p| p.piece_type) == here.map(|p| p.piece_type));
            assert!(there.map(|p| p.color.opposite()) == here.map(|p| p.color));
        }
    }
    assert!(a.side_to_move == b.side_to_move);
}
