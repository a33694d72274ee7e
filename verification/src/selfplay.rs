//! Games that the engine plays against itself.

use rand::seq::SliceRandom;

use crate::board::{initial_position, Board, Color, Position};
use crate::fen::{fen_text, law_reading_undoes_writing, tidy};
use crate::moves::{on_board, Move};
use crate::nn::{action_of, flipped_action, move_to_index, tensor_of};
use crate::rules::{
    apply_move_to_game, entry_of, get_legal_moves, legal_moves_spec, reversible, HistoryEntry,
    RepetitionResult, Rules,
};
use crate::text::{
    append_all, chars_of, decimal, decimal_text, law_numbers_are_read_back, number_upto,
    parse_usize, starts_with, string_of,
};
use crate::training::{sample_policy, sample_tensor};
use vstd::prelude::*;

verus! {

// ---------------------------------------------------------------------------
// One game
// ---------------------------------------------------------------------------
/// After this many moves the game is a draw.
pub const MOVE_LIMIT: usize = 400;

/// A searched position: its text, the bits of the score, the mover, the action played.
pub struct GameRecord {
    pub fen: String,
    pub score: u32,
    pub side: Color,
    pub policy: usize,
}

/// A game in progress.
pub struct Game {
    pub board: Board,
    pub history: Vec<HistoryEntry>,
    pub records: Vec<GameRecord>,
    pub move_count: usize,
}

/// What comes next in a game.
pub enum Turn {
    /// The game is over, with a winner or without.
    Over(Option<Color>),
    /// The side to move has to choose among these.
    Choose(Vec<Move>),
}

/// How a game stands, if it is over: lost for the side to move when it is mated, drawn
/// when it has no move otherwise, drawn after too many moves, and else as the
/// repetition is judged.
pub open spec fn outcome<R: Rules>(
    rules: &R,
    p: Position,
    history: Seq<HistoryEntry>,
    move_count: int,
) -> Option<Option<Color>> {
    if legal_moves_spec(rules, p).len() == 0 {
        if p.in_check(p.side_to_move) {
            Some(Some(p.side_to_move.opposite_spec()))
        } else {
            Some(None)
        }
    } else if move_count > MOVE_LIMIT {
        Some(None)
    } else {
        match rules.repetition_spec(p, history, 1) {
            RepetitionResult::Draw => Some(None),
            RepetitionResult::Loss => Some(Some(p.side_to_move.opposite_spec())),
            RepetitionResult::Win => Some(Some(p.side_to_move)),
            RepetitionResult::Undecided => None,
        }
    }
}

/// How a game against itself ends: a side in check without a legal move has lost; without
/// a check that is a draw, and so are more than four hundred moves; a repetition is won by
/// the side for which it is judged a win. Else the game goes on.
pub proof fn law_how_a_game_ends<R: Rules>(
    rules: &R,
    p: Position,
    history: Seq<HistoryEntry>,
    move_count: int,
)
    ensures
        ({
            let mover = p.side_to_move;
            let other = if mover == Color::Red {
                Color::Black
            } else {
                Color::Red
            };
            let stuck = legal_moves_spec(rules, p).len() == 0;
            let judged = rules.repetition_spec(p, history, 1);
            let end = outcome(rules, p, history, move_count);
            &&& stuck && p.in_check(mover) ==> end == Some(Some(other))
            &&& stuck && !p.in_check(mover) ==> end == Some(None::<Color>)
            &&& !stuck && move_count > 400 ==> end == Some(None::<Color>)
            &&& !stuck && move_count <= 400 ==> {
                &&& judged == RepetitionResult::Win ==> end == Some(Some(mover))
                &&& judged == RepetitionResult::Loss ==> end == Some(Some(other))
                &&& judged == RepetitionResult::Draw ==> end == Some(None::<Color>)
                &&& judged == RepetitionResult::Undecided ==> end is None
            }
        }),
{
}

impl Game {
    pub fn new() -> (game: Game)
        ensures
            game.board@ == initial_position(),
            game.history@.len() == 0,
            game.records@.len() == 0,
            game.move_count == 0,
    {
        let mut board = Board::new();
        board.set_initial_position();
        Game { board, history: Vec::new(), records: Vec::new(), move_count: 0 }
    }

    /// Says what comes next.
    pub fn next_turn<R: Rules>(&mut self, rules: &R) -> (turn: Turn)
        ensures
            final(self).board@ == old(self).board@,
            final(self).history == old(self).history,
            final(self).records == old(self).records,
            final(self).move_count == old(self).move_count,
            match turn {
                Turn::Over(winner) => outcome(
                    rules,
                    old(self).board@,
                    old(self).history@,
                    old(self).move_count as int,
                ) == Some(winner),
                Turn::Choose(moves) => {
                    &&& outcome(
                        rules,
                        old(self).board@,
                        old(self).history@,
                        old(self).move_count as int,
                    ) is None
                    &&& moves@ == legal_moves_spec(rules, old(self).board@)
                },
            },
    {
        let legal_moves = get_legal_moves(rules, &mut self.board);
        let side = self.board.side_to_move;
        if legal_moves.len() == 0 {
            return if self.board.king_attacked(side) {
                Turn::Over(Some(side.opposite()))
            } else {
                Turn::Over(None)
            };
        }
        if self.move_count > MOVE_LIMIT {
            return Turn::Over(None);
        }
        match rules.judge_repetition(&self.board, &self.history, 1) {
            RepetitionResult::Draw => Turn::Over(None),
            RepetitionResult::Loss => Turn::Over(Some(side.opposite())),
            RepetitionResult::Win => Turn::Over(Some(side)),
            RepetitionResult::Undecided => Turn::Choose(legal_moves),
        }
    }

    /// Records the position with the bits of its score and the action on the board as it
    /// stands, and plays the move.
    pub fn play<R: Rules>(&mut self, rules: &R, chosen: Move, score: u32)
        requires
            on_board(chosen.from_spec()),
            on_board(chosen.to_spec()),
            old(self).board@.piece_at(chosen.from_spec()) is Some,
            old(self).move_count < usize::MAX,
        ensures
            final(self).board@ == old(self).board@.after_move(chosen),
            final(self).history@ == old(self).history@.push(
                entry_of(rules, old(self).board@, chosen, reversible(old(self).board@, chosen)),
            ),
            final(self).move_count == old(self).move_count + 1,
            final(self).records@.len() == old(self).records@.len() + 1,
            final(self).records@.drop_last() == old(self).records@,
            ({
                let record = final(self).records@.last();
                &&& record.fen@ == fen_text(old(self).board@)
                &&& record.score == score
                &&& record.side == old(self).board@.side_to_move
                &&& record.policy == action_of(chosen.from_spec(), chosen.to_spec())
            }),
    {
        let side = self.board.side_to_move;
        self.records.push(
            GameRecord {
                fen: self.board.to_fen(),
                score,
                side,
                policy: move_to_index(chosen),
            },
        );
        assert(self.records@.drop_last() =~= old(self).records@);
        apply_move_to_game(rules, &mut self.board, chosen, &mut self.history);
        self.move_count = self.move_count + 1;
    }
}

/// The result of a game for a side: 1 for a win, -1 for a loss, 0 for a draw.
pub open spec fn result_for(side: Color, winner: Option<Color>) -> int {
    match winner {
        None => 0,
        Some(color) => if side == color {
            1
        } else {
            -1
        },
    }
}

impl GameRecord {
    /// The result of the game for the side that moved here.
    pub fn result(&self, winner: Option<Color>) -> (z: i32)
        ensures
            z == result_for(self.side, winner),
    {
        match winner {
            None => 0,
            Some(color) => if self.side == color {
                1
            } else {
                -1
            },
        }
    }
}

/// What a network learns from a recorded move is the action as the mover sees it, which
/// is how the tensor of the position shows the board.
pub proof fn law_a_recorded_move_is_learned_as_its_mover_sees_it(p: Position, m: Move)
    requires
        tidy(p),
    ensures
        sample_tensor(fen_text(p), false) == tensor_of(p),
        sample_policy(fen_text(p), action_of(m.from_spec(), m.to_spec()), false) == (if p.side_to_move
            == Color::Black {
            flipped_action(action_of(m.from_spec(), m.to_spec()))
        } else {
            action_of(m.from_spec(), m.to_spec())
        }),
{
    law_reading_undoes_writing(p);
}

/// What one side wins the other loses.
pub proof fn law_results_cancel(side: Color, winner: Option<Color>)
    ensures
        result_for(side, winner) + result_for(side.opposite_spec(), winner) == 0,
        result_for(side, winner) == 1 <==> winner == Some(side),
        result_for(side, winner) == 0 <==> winner is None,
{
}

// ---------------------------------------------------------------------------
// Rounds
// ---------------------------------------------------------------------------
/// Below this many positions there is no training.
pub const MIN_BUFFER_SIZE: usize = 40_000;

/// No more positions than this are kept.
pub const MAX_BUFFER_SIZE: usize = 300_000;

/// Games are played in a round, unless it is the first and there are positions enough.
pub fn plays_in_round(round: usize, buffered: usize) -> (plays: bool)
    ensures
        plays <==> (round != 1 || buffered < MIN_BUFFER_SIZE),
{
    round != 1 || buffered < MIN_BUFFER_SIZE
}

/// There are positions enough to train.
pub fn trains_in_round(buffered: usize) -> (trains: bool)
    ensures
        trains <==> buffered >= MIN_BUFFER_SIZE,
{
    buffered >= MIN_BUFFER_SIZE
}

// ---------------------------------------------------------------------------
// Rounds of games
// ---------------------------------------------------------------------------
/// The games of a batch.
pub open spec fn games_of(batch_idx: int, games: int, concurrent: int) -> int {
    let left = games - batch_idx * concurrent;
    if concurrent < left {
        concurrent
    } else {
        left
    }
}

/// What is left of the games after a batch is what was left before it less the games of the
/// batch, and none are left after the last.
pub proof fn law_the_batches_play_all_games(batch_idx: int, games: int, concurrent: int)
    requires
        concurrent > 0,
        0 <= batch_idx,
        batch_idx * concurrent <= games,
    ensures
        0 <= games_of(batch_idx, games, concurrent) <= concurrent,
        games >= (batch_idx + 1) * concurrent ==> games - (batch_idx + 1) * concurrent == games
            - batch_idx * concurrent - games_of(batch_idx, games, concurrent),
        games <= (batch_idx + 1) * concurrent ==> games_of(batch_idx, games, concurrent) == games
            - batch_idx * concurrent,
{
    assert((batch_idx + 1) * concurrent == batch_idx * concurrent + concurrent)
        by (nonlinear_arith);
}

/// The games played at the same time in a batch, out of all games of a round.
pub fn games_in_batch(batch_idx: usize, games: usize, concurrent: usize) -> (count: usize)
    requires
        batch_idx * concurrent <= games,
    ensures
        count == (if concurrent < games - batch_idx * concurrent {
            concurrent as int
        } else {
            games - batch_idx * concurrent
        }),
        count == games_of(batch_idx as int, games as int, concurrent as int),
{
    let left = games - batch_idx * concurrent;
    if concurrent < left {
        concurrent
    } else {
        left
    }
}

// ---------------------------------------------------------------------------
// Versions
// ---------------------------------------------------------------------------
/// The version in a file name between its prefix and its suffix.
pub open spec fn version_in(name: Seq<char>) -> Option<int> {
    let prefix = "xiangqi_net_version_"@;
    let suffix = ".mpk"@;
    if prefix.is_prefix_of(name) && suffix.is_suffix_of(name.skip(prefix.len() as int)) {
        let rest = name.skip(prefix.len() as int);
        number_upto(rest.take(rest.len() - suffix.len()), usize::MAX as int)
    } else {
        None
    }
}

fn ends_with(a: &Vec<char>, start: usize, suffix: &Vec<char>) -> (ends: bool)
    requires
        start <= a@.len(),
    ensures
        ends == suffix@.is_suffix_of(a@.skip(start as int)),
{
    let ghost rest = a@.skip(start as int);
    if suffix.len() > a.len() - start {
        return false;
    }
    let offset = a.len() - suffix.len();
    let mut i: usize = 0;
    while i < suffix.len()
        invariant
            i <= suffix@.len(),
            start <= a@.len(),
            rest == a@.skip(start as int),
            suffix@.len() <= rest.len(),
            offset == a@.len() - suffix@.len(),
            forall|j: int| 0 <= j < i ==> a@[offset + j] == suffix@[j],
        decreases suffix@.len() - i,
    {
        assert(a.len() == a@.len());
        if a[offset + i] != suffix[i] {
            assert(rest.subrange(rest.len() - suffix@.len(), rest.len() as int)[i as int]
                == a@[offset + i]);
            return false;
        }
        i += 1;
    }
    assert(suffix@ =~= rest.subrange(rest.len() - suffix@.len(), rest.len() as int));
    true
}

/// Reads the version off a file name.
pub fn version_of(name: &str) -> (version: Option<usize>)
    ensures
        match version {
            Some(v) => version_in(name@) == Some(v as int),
            None => version_in(name@) is None,
        },
{
    let chars = chars_of(name);
    let prefix = "xiangqi_net_version_";
    if !starts_with(&chars, prefix) {
        return None;
    }
    let start = chars_of(prefix).len();
    let suffix = chars_of(".mpk");
    if !ends_with(&chars, start, &suffix) {
        return None;
    }
    let end = chars.len() - suffix.len();
    let mut digits: Vec<char> = Vec::new();
    let mut i: usize = start;
    let ghost rest = chars@.skip(start as int);
    while i < end
        invariant
            start <= i <= end <= chars@.len(),
            rest == chars@.skip(start as int),
            digits@ == rest.take(i - start),
        decreases end - i,
    {
        digits.push(chars[i]);
        i += 1;
        assert(digits@ =~= rest.take(i - start));
    }
    parse_usize(&digits)
}

/// The greatest version among the first `n` file names, 0 without any.
pub open spec fn latest_upto(names: Seq<String>, n: int) -> int
    decreases n,
{
    if n <= 0 {
        0
    } else {
        let rest = latest_upto(names, n - 1);
        match version_in(names[n - 1]@) {
            Some(v) if v > rest => v,
            _ => rest,
        }
    }
}

/// Finds the greatest version among file names.
pub fn latest_version(names: &Vec<String>) -> (latest: usize)
    ensures
        latest == latest_upto(names@, names@.len() as int),
{
    let mut latest: usize = 0;
    let mut i: usize = 0;
    while i < names.len()
        invariant
            i <= names@.len(),
            latest == latest_upto(names@, i as int),
        decreases names@.len() - i,
    {
        if let Some(v) = version_of(names[i].as_str()) {
            if v > latest {
                latest = v;
            }
        }
        i += 1;
    }
    latest
}

/// The file to start from: the latest version, or the base model.
pub fn checkpoint_path(model_dir: &str, version: usize) -> (path: String)
    ensures
        path@ == (if version > 0 {
            model_dir@ + "/xiangqi_net_version_"@ + decimal(version as nat) + ".mpk"@
        } else {
            model_dir@ + "/xiangqi_net_base.mpk"@
        }),
{
    let mut out = chars_of(model_dir);
    if version > 0 {
        append_all(&mut out, &chars_of("/xiangqi_net_version_"));
        append_all(&mut out, &decimal_text(version));
        append_all(&mut out, &chars_of(".mpk"));
    } else {
        append_all(&mut out, &chars_of("/xiangqi_net_base.mpk"));
    }
    string_of(&out)
}

// ---------------------------------------------------------------------------
// Choosing what to train on
// ---------------------------------------------------------------------------
/// Calls `SliceRandom::shuffle` of the `rand` crate with its thread-local generator:
/// the elements are put into a random order, none lost and none added.
#[verifier::external_body]
fn shuffle(v: &mut Vec<usize>)
    ensures
        final(v)@.to_multiset() == old(v)@.to_multiset(),
{
    v.shuffle(&mut rand::rng());
}

/// At most this many old items are trained on again.
pub const REPLAY_SAMPLE: usize = 50_000;

/// The numbers from 0 up to `n`.
pub open spec fn counting(n: int) -> Seq<usize> {
    Seq::new(n as nat, |i: int| i as usize)
}

fn count_up(n: usize) -> (v: Vec<usize>)
    ensures
        v@ == counting(n as int),
{
    let mut v: Vec<usize> = Vec::with_capacity(n);
    let mut i: usize = 0;
    while i < n
        invariant
            i <= n,
            v@ == counting(i as int),
        decreases n - i,
    {
        v.push(i);
        i += 1;
        assert(v@ =~= counting(i as int));
    }
    v
}

/// What is trained on, given an order of the replay buffer: all new items, numbered from
/// 0, and behind them the first ones of the buffer in that order, numbered on from
/// there.
pub open spec fn chosen(fresh: int, order: Seq<usize>) -> Seq<usize> {
    let sample = if order.len() < REPLAY_SAMPLE {
        order
    } else {
        order.take(REPLAY_SAMPLE as int)
    };
    counting(fresh) + Seq::new(sample.len(), |i: int| (fresh + sample[i]) as usize)
}

/// Chooses what to train on, given an order of the replay buffer.
pub fn choose_items(fresh: usize, order: &Vec<usize>) -> (picked: Vec<usize>)
    requires
        forall|i: int| 0 <= i < order@.len() ==> fresh + #[trigger] order@[i] <= usize::MAX,
    ensures
        picked@ == chosen(fresh as int, order@),
{
    let mut picked = count_up(fresh);
    let ghost first = picked@;
    let count = if order.len() < REPLAY_SAMPLE {
        order.len()
    } else {
        REPLAY_SAMPLE
    };
    let mut i: usize = 0;
    while i < count
        invariant
            i <= count <= order@.len(),
            forall|j: int| 0 <= j < order@.len() ==> fresh + #[trigger] order@[j] <= usize::MAX,
            picked@ == first + Seq::new(i as nat, |j: int| (fresh + order@[j]) as usize),
        decreases count - i,
    {
        picked.push(fresh + order[i]);
        i += 1;
        assert(picked@ =~= first + Seq::new(i as nat, |j: int| (fresh + order@[j]) as usize));
    }
    assert(picked@ =~= chosen(fresh as int, order@));
    picked
}

/// Chooses at random what to train on: all `fresh` new items and a sample of the
/// `buffered` old ones (numbered behind the new ones), in a random order.
pub fn training_order(fresh: usize, buffered: usize) -> (order: Vec<usize>)
    requires
        fresh + buffered <= usize::MAX,
    ensures
        exists|drawn: Seq<usize>|
            #![trigger chosen(fresh as int, drawn)]
            drawn.to_multiset() == counting(buffered as int).to_multiset()
                && order@.to_multiset() == chosen(fresh as int, drawn).to_multiset(),
{
    let mut drawn = count_up(buffered);
    shuffle(&mut drawn);
    assert forall|i: int| 0 <= i < drawn@.len() implies fresh + #[trigger] drawn@[i]
        <= usize::MAX by {
        broadcast use vstd::seq_lib::group_to_multiset_ensures;

        assert(drawn@.contains(drawn@[i]));
        assert(drawn@.to_multiset().count(drawn@[i]) > 0);
        assert(counting(buffered as int).contains(drawn@[i]));
    }
    let mut order = choose_items(fresh, &drawn);
    shuffle(&mut order);
    assert(order@.to_multiset() == chosen(fresh as int, drawn@).to_multiset());
    order
}

/// A version is read off the name of the file that holds it.
pub proof fn law_versions_are_read_off_file_names(n: usize)
    ensures
        version_in("xiangqi_net_version_"@ + decimal(n as nat) + ".mpk"@) == Some(n as int),
{
    let prefix = "xiangqi_net_version_"@;
    let suffix = ".mpk"@;
    let digits = decimal(n as nat);
    let name = prefix + digits + suffix;
    let rest = name.skip(prefix.len() as int);
    assert(rest =~= digits + suffix);
    assert(prefix =~= name.subrange(0, prefix.len() as int));
    assert(suffix =~= rest.subrange(rest.len() - suffix.len(), rest.len() as int));
    assert(rest.take(rest.len() - suffix.len()) =~= digits);
    law_numbers_are_read_back(n as nat);
}

/// The latest version is the greatest that a name tells, and 0 where none tells one.
pub proof fn law_the_latest_version_is_the_greatest(names: Seq<String>, n: int)
    requires
        0 <= n <= names.len(),
    ensures
        forall|i: int|
            0 <= i < n ==> (version_in((#[trigger] names[i])@) matches Some(v) ==> v <= latest_upto(
                names,
                n,
            )),
        latest_upto(names, n) == 0 || exists|i: int|
            0 <= i < n && version_in((#[trigger] names[i])@) == Some(latest_upto(names, n)),
        latest_upto(names, n) >= 0,
    decreases n,
{
    if n > 0 {
        law_the_latest_version_is_the_greatest(names, n - 1);
        let rest = latest_upto(names, n - 1);
        if latest_upto(names, n) == rest && rest != 0 {
            let i = choose|i: int|
                0 <= i < n - 1 && version_in((#[trigger] names[i])@) == Some(rest);
            assert(version_in(names[i]@) == Some(latest_upto(names, n)));
        } else if latest_upto(names, n) != rest {
            assert(version_in(names[n - 1]@) == Some(latest_upto(names, n)));
        }
    }
}

/// What is trained on: every new item, and behind them as many old ones as there are, but no
/// more than fifty thousand, in the order drawn.
pub proof fn law_what_is_trained_on(fresh: int, order: Seq<usize>, i: int)
    requires
        0 <= fresh,
        forall|k: int| 0 <= k < order.len() ==> fresh + #[trigger] order[k] <= usize::MAX,
        fresh <= usize::MAX,
        0 <= i < chosen(fresh, order).len(),
    ensures
        chosen(fresh, order).len() == fresh + (if order.len() < 50_000 {
            order.len()
        } else {
            50_000
        }),
        i < fresh ==> chosen(fresh, order)[i] == i,
        i >= fresh ==> chosen(fresh, order)[i] == fresh + order[i - fresh],
{
    if i >= fresh {
        assert(fresh + order[i - fresh] <= usize::MAX);
    }
}

} // verus!
