//! Lines of training data.

use crate::board::{Color, Position};
use crate::dataset::{
    check_move_text, clean_fen, cleaned_fen, get_move_index, is_move_text,
    law_mirrored_text_describes_mirrored_position, law_turned_text_describes_turned_position,
    lemma_fen_parts, mirror_fen, mirror_fen_and_swap_colors, mirror_policy, mirror_policy_180,
    mirrored_fen, mirrored_position, text_dense, turned_fen,
};
use crate::fen::{fen_text, side_char};
use crate::nn::{
    flip_action_index, flipped_action, law_a_flipped_action_has_turned_squares,
    law_a_mirrored_action_has_mirrored_columns, law_mirroring_an_action_twice, mirrored_action,
    turned_round, ACTION_SPACE,
};
use crate::text::{
    append_all, chars_of, decimal, decimal_text, fields, is_space, is_text, joined, joined_upto,
    lacks, law_fields_of_joined, law_numbers_are_read_back, number_upto, parse_usize, split_fields,
    split_words, starts_with, string_of, texts, trim, trim_end, trim_start, words,
};
use vstd::prelude::*;

verus! {

// ---------------------------------------------------------------------------
// Position, policy, value
// ---------------------------------------------------------------------------
/// A position, the action played there and the value as text.
pub struct Record {
    pub fen: String,
    pub policy: usize,
    pub value: String,
}

impl View for Record {
    type V = (Seq<char>, int, Seq<char>);

    open spec fn view(&self) -> (Seq<char>, int, Seq<char>) {
        (self.fen@, self.policy as int, self.value@)
    }
}

pub open spec fn trimmed(s: Seq<char>) -> Seq<char> {
    trim_end(trim_start(s))
}

/// What a line records: nothing if it is empty, a heading, too short, or without a
/// number for the policy.
pub open spec fn recorded(line: Seq<char>) -> Option<(Seq<char>, int, Seq<char>)> {
    let parts = fields(line, ',');
    if "fen"@.is_prefix_of(line) || line.len() == 0 || parts.len() < 3 {
        None
    } else {
        match number_upto(trimmed(parts[1]), usize::MAX as int) {
            None => None,
            Some(policy) => Some((parts[0], policy, trimmed(parts[2]))),
        }
    }
}

/// Headings, empty lines, lines of fewer than three parts and those without a number in the
/// second are passed over; of all others the first part is the position, as it is, and the
/// third the value, without the white space around it.
pub proof fn law_which_lines_are_records(line: Seq<char>)
    ensures
        ({
            let parts = fields(line, ',');
            let heading = line.len() >= 3 && line[0] == 'f' && line[1] == 'e' && line[2] == 'n';
            &&& heading || line.len() == 0 || parts.len() < 3 ==> recorded(line) is None
            &&& recorded(line) matches Some((fen, policy, value)) ==> {
                &&& fen == parts[0]
                &&& value == trim_end(trim_start(parts[2]))
                &&& number_upto(trim_end(trim_start(parts[1])), usize::MAX as int) == Some(policy)
            }
            &&& !heading && line.len() > 0 && parts.len() >= 3 && number_upto(
                trim_end(trim_start(parts[1])),
                usize::MAX as int,
            ) is Some ==> recorded(line) is Some
        }),
{
    reveal_strlit("fen");
    let word = "fen"@;
    assert(word.len() == 3 && word[0] == 'f' && word[1] == 'e' && word[2] == 'n');
    if line.len() >= 3 && line[0] == 'f' && line[1] == 'e' && line[2] == 'n' {
        assert(word =~= line.subrange(0, 3));
    }
    if word.is_prefix_of(line) {
        assert(line.subrange(0, 3)[0] == line[0] && line.subrange(0, 3)[1] == line[1]
            && line.subrange(0, 3)[2] == line[2]);
    }
}

/// Reads a line of position, policy and value.
pub fn read_record(line: &str) -> (record: Option<Record>)
    ensures
        match record {
            Some(r) => recorded(line@) == Some(r@),
            None => recorded(line@) is None,
        },
{
    let chars = chars_of(line);
    if starts_with(&chars, "fen") || chars.len() == 0 {
        return None;
    }
    let parts = split_fields(&chars, ',');
    if parts.len() < 3 {
        return None;
    }
    assert(texts(parts@)[0] == parts@[0]@ && texts(parts@)[1] == parts@[1]@ && texts(parts@)[2]
        == parts@[2]@);
    match parse_usize(&trim(&parts[1])) {
        None => None,
        Some(policy) => Some(
            Record { fen: string_of(&parts[0]), policy, value: string_of(&trim(&parts[2])) },
        ),
    }
}

/// A line of position, policy and value.
pub open spec fn record_line(fen: Seq<char>, policy: int, value: Seq<char>) -> Seq<char> {
    (fen.push(',') + decimal(policy as nat)).push(',') + value
}

fn write_record(fen: &String, policy: usize, value: &String) -> (line: String)
    ensures
        line@ == record_line(fen@, policy as int, value@),
{
    let mut out = chars_of(fen.as_str());
    out.push(',');
    append_all(&mut out, &decimal_text(policy));
    out.push(',');
    append_all(&mut out, &chars_of(value.as_str()));
    string_of(&out)
}

/// The line mirrored left to right.
pub open spec fn mirrored_line(fen: Seq<char>, policy: int, value: Seq<char>) -> Seq<char> {
    record_line(mirrored_fen(fen), mirrored_action(policy), value)
}

/// The second part of the text says that black is to move.
pub open spec fn tells_black(fen: Seq<char>) -> bool {
    let parts = fields(fen, ' ');
    parts.len() > 1 && (parts[1] == "b"@ || parts[1] == "B"@)
}

/// The line as the side to move sees it.
pub open spec fn canonical_line(fen: Seq<char>, policy: int, value: Seq<char>) -> Seq<char> {
    if tells_black(fen) {
        record_line(turned_fen(fen), flipped_action(policy), value)
    } else {
        record_line(fen, policy, value)
    }
}

impl Record {
    /// The line itself and its mirror image.
    pub fn augmented(&self) -> (lines: (String, String))
        requires
            self.policy < ACTION_SPACE,
        ensures
            lines.0@ == record_line(self.fen@, self.policy as int, self.value@),
            lines.1@ == record_line(
                mirrored_fen(self.fen@),
                mirrored_action(self.policy as int),
                self.value@,
            ),
            lines.1@ == mirrored_line(self.fen@, self.policy as int, self.value@),
    {
        let mirrored = mirror_fen(self.fen.as_str());
        (
            write_record(&self.fen, self.policy, &self.value),
            write_record(&mirrored, mirror_policy(self.policy), &self.value),
        )
    }

    /// Black is to move: the second part of the position's text is `b` or `B`.
    pub open spec fn black_to_move(&self) -> bool {
        let parts = fields(self.fen@, ' ');
        parts.len() > 1 && (parts[1] == "b"@ || parts[1] == "B"@)
    }

    pub fn is_black_to_move(&self) -> (black: bool)
        ensures
            black == self.black_to_move(),
    {
        let parts = split_fields(&chars_of(self.fen.as_str()), ' ');
        if parts.len() > 1 {
            assert(texts(parts@)[1] == parts@[1]@);
            is_text(&parts[1], "b") || is_text(&parts[1], "B")
        } else {
            false
        }
    }

    /// The line as the first side sees it: turned round if black is to move.
    pub fn canonical(&self) -> (line: String)
        requires
            self.black_to_move() ==> self.policy < ACTION_SPACE,
        ensures
            line@ == (if self.black_to_move() {
                record_line(
                    turned_fen(self.fen@),
                    flipped_action(self.policy as int),
                    self.value@,
                )
            } else {
                record_line(self.fen@, self.policy as int, self.value@)
            }),
            line@ == canonical_line(self.fen@, self.policy as int, self.value@),
    {
        if self.is_black_to_move() {
            let turned = mirror_fen_and_swap_colors(self.fen.as_str());
            write_record(&turned, mirror_policy_180(self.policy), &self.value)
        } else {
            write_record(&self.fen, self.policy, &self.value)
        }
    }
}

/// A written number holds digits only.
proof fn lemma_decimal_text(n: nat)
    ensures
        decimal(n).len() > 0,
        forall|i: int| 0 <= i < decimal(n).len() ==> '0' <= #[trigger] decimal(n)[i] <= '9',
    decreases n,
{
    if n >= 10 {
        lemma_decimal_text(n / 10);
        let rest = decimal(n / 10);
        assert forall|i: int| 0 <= i < decimal(n).len() implies '0' <= #[trigger] decimal(n)[i]
            <= '9' by {
            if i < rest.len() {
                assert(decimal(n)[i] == rest[i]);
            }
        }
    }
}

/// A line is its three parts with commas between them.
proof fn lemma_record_parts(fen: Seq<char>, policy: int, value: Seq<char>)
    requires
        0 <= policy,
        lacks(fen, ','),
        lacks(value, ','),
    ensures
        fields(record_line(fen, policy, value), ',') == seq![fen, decimal(policy as nat), value],
        trimmed(decimal(policy as nat)) == decimal(policy as nat),
{
    let parts = seq![fen, decimal(policy as nat), value];
    lemma_decimal_text(policy as nat);
    let n = decimal(policy as nat);
    assert(!is_space(n[0]) && !is_space(n.last()));
    assert(record_line(fen, policy, value) == joined(parts, ',')) by {
        reveal_with_fuel(joined_upto, 4);
    }
    assert forall|i: int| 0 <= i < parts.len() implies lacks(#[trigger] parts[i], ',') by {}
    law_fields_of_joined(parts, ',');
}

/// Reading a written record gives it back, for a position and a value without commas that
/// does not look like a heading, and a value without spaces around it.
pub proof fn law_a_written_record_is_read(fen: Seq<char>, policy: int, value: Seq<char>)
    requires
        0 <= policy <= usize::MAX,
        lacks(fen, ','),
        lacks(value, ','),
        trimmed(value) == value,
        !"fen"@.is_prefix_of(record_line(fen, policy, value)),
    ensures
        recorded(record_line(fen, policy, value)) == Some((fen, policy, value)),
{
    lemma_record_parts(fen, policy, value);
    law_numbers_are_read_back(policy as nat);
}

/// A record of a position, made canonical, is the record of what the side to move sees: where
/// red is to move the same, and where black is, the position turned round in the other
/// colours and the action from the turned square to the turned square.
pub proof fn law_a_canonical_record_is_what_the_mover_sees(p: Position, policy: int, value: Seq<char>)
    requires
        0 <= policy < 8100,
    ensures
        ({
            let turned = fen_text(turned_round(p));
            let line = canonical_line(fen_text(p), policy, value);
            &&& p.side_to_move == Color::Red ==> line == record_line(fen_text(p), policy, value)
            &&& p.side_to_move == Color::Black ==> exists|seen: int| #[trigger]
                record_line(turned, seen, value) == line && 0 <= seen < 8100 && seen / 90 / 9 == 9
                    - policy / 90 / 9 && seen / 90 % 9 == 8 - policy / 90 % 9 && seen % 90 / 9 == 9
                    - policy % 90 / 9 && seen % 90 % 9 == 8 - policy % 90 % 9
        }),
{
    lemma_fen_parts(p);
    reveal_strlit("b");
    reveal_strlit("B");
    let parts = fields(fen_text(p), ' ');
    assert(parts[1] == seq![side_char(p.side_to_move)]);
    if p.side_to_move == Color::Black {
        assert(parts[1] =~= "b"@);
        law_turned_text_describes_turned_position(p);
        law_a_flipped_action_has_turned_squares(policy);
        let seen = flipped_action(policy);
        assert(record_line(fen_text(turned_round(p)), seen, value) == canonical_line(
            fen_text(p),
            policy,
            value,
        ));
    } else {
        assert(parts[1][0] == 'w');
        assert(parts[1] != "b"@ && parts[1] != "B"@) by {
            assert("b"@[0] == 'b' && "B"@[0] == 'B');
        }
    }
}

/// The mirror image of a record of a position is the record of the mirrored position and of
/// the action in the mirrored columns, with the same value.
pub proof fn law_a_mirrored_record_is_of_the_mirrored_position(
    p: Position,
    policy: int,
    value: Seq<char>,
)
    requires
        0 <= policy < 8100,
    ensures
        exists|seen: int| #[trigger]
            record_line(fen_text(mirrored_position(p)), seen, value) == mirrored_line(
                fen_text(p),
                policy,
                value,
            ) && 0 <= seen < 8100 && seen / 90 / 9 == policy / 90 / 9 && seen / 90 % 9 == 8 - policy
                / 90 % 9 && seen % 90 / 9 == policy % 90 / 9 && seen % 90 % 9 == 8 - policy % 90
                % 9,
{
    law_mirrored_text_describes_mirrored_position(p);
    law_a_mirrored_action_has_mirrored_columns(policy);
    law_mirroring_an_action_twice(policy);
    let seen = mirrored_action(policy);
    assert(record_line(fen_text(mirrored_position(p)), seen, value) == mirrored_line(
        fen_text(p),
        policy,
        value,
    ));
}

// ---------------------------------------------------------------------------
// Analysed positions
// ---------------------------------------------------------------------------
/// What a line of position, evaluation and best move gives.
pub enum Analysis {
    /// Too few fields.
    Short,
    /// The best move cannot be read.
    BadMove,
    /// The position without its tail, the evaluation as text, the action index.
    Entry { fen: String, value: String, index: usize },
}

/// Reads a line of position, evaluation and best move.
pub fn read_analysis(line: &str) -> (analysis: Analysis)
    ensures
        ({
            let parts = fields(line@, ',');
            match analysis {
                Analysis::Short => parts.len() < 3,
                Analysis::BadMove => parts.len() >= 3 && !is_move_text(parts[2]),
                Analysis::Entry { fen, value, index } => {
                    &&& parts.len() >= 3
                    &&& is_move_text(parts[2])
                    &&& fen@ == cleaned_fen(parts[0])
                    &&& value@ == parts[1]
                    &&& index == text_dense(parts[2][0], parts[2][1]) * 90 + text_dense(
                        parts[2][2],
                        parts[2][3],
                    )
                },
            }
        }),
{
    let parts = split_fields(&chars_of(line), ',');
    if parts.len() < 3 {
        return Analysis::Short;
    }
    assert(texts(parts@)[0] == parts@[0]@ && texts(parts@)[1] == parts@[1]@ && texts(parts@)[2]
        == parts@[2]@);
    if !check_move_text(&parts[2]) {
        return Analysis::BadMove;
    }
    let raw_fen = string_of(&parts[0]);
    let best_move = string_of(&parts[2]);
    Analysis::Entry {
        fen: clean_fen(raw_fen.as_str()),
        value: string_of(&parts[1]),
        index: get_move_index(best_move.as_str()),
    }
}

// ---------------------------------------------------------------------------
// Position, value, policy
// ---------------------------------------------------------------------------
/// What a line of a shard holds: exactly three fields, the last one a number.
pub open spec fn shard_item(line: Seq<char>) -> Option<(Seq<char>, Seq<char>, int)> {
    let parts = fields(line, ',');
    if parts.len() == 3 {
        match number_upto(parts[2], usize::MAX as int) {
            None => None,
            Some(policy) => Some((parts[0], parts[1], policy)),
        }
    } else {
        None
    }
}

/// Reads a line of a shard: position, value as text, policy.
pub fn read_shard_line(line: &str) -> (item: Option<Record>)
    ensures
        match item {
            Some(r) => shard_item(line@) == Some((r.fen@, r.value@, r.policy as int)),
            None => shard_item(line@) is None,
        },
{
    let parts = split_fields(&chars_of(line), ',');
    if parts.len() != 3 {
        return None;
    }
    assert(texts(parts@)[0] == parts@[0]@ && texts(parts@)[1] == parts@[1]@ && texts(parts@)[2]
        == parts@[2]@);
    match parse_usize(&parts[2]) {
        None => None,
        Some(policy) => Some(
            Record { fen: string_of(&parts[0]), policy, value: string_of(&parts[1]) },
        ),
    }
}

/// What becomes of a line of training data.
pub enum TrainingLine {
    /// It is kept, if its value is a number.
    Kept(Record),
    /// It is dropped and, if this value is a number, counted: there is no such action.
    OutOfRange(String),
    /// It is passed over.
    Skipped,
}

/// Reads a line of training data: position, value as text, policy.
pub fn read_training_line(line: &str) -> (read: TrainingLine)
    ensures
        match read {
            TrainingLine::Kept(r) => shard_item(line@) == Some(
                (r.fen@, r.value@, r.policy as int),
            ) && r.policy < ACTION_SPACE,
            TrainingLine::OutOfRange(value) => shard_item(line@) matches Some((_, v, policy))
                && policy >= ACTION_SPACE && value@ == v,
            TrainingLine::Skipped => shard_item(line@) is None,
        },
{
    match read_shard_line(line) {
        None => TrainingLine::Skipped,
        Some(record) => if record.policy < ACTION_SPACE {
            TrainingLine::Kept(record)
        } else {
            TrainingLine::OutOfRange(record.value)
        },
    }
}

/// Keeps the newest items, those at the end.
pub fn keep_newest<T>(items: &mut Vec<T>, max_size: usize)
    ensures
        final(items)@ == (if old(items)@.len() > max_size {
            old(items)@.skip(old(items)@.len() - max_size)
        } else {
            old(items)@
        }),
{
    if items.len() > max_size {
        let excess = items.len() - max_size;
        let newest = items.split_off(excess);
        *items = newest;
        assert(items@ =~= old(items)@.skip(old(items)@.len() - max_size));
    }
}

// ---------------------------------------------------------------------------
// Measuring a network
// ---------------------------------------------------------------------------
/// The line with spaces in place of commas.
pub open spec fn without_commas(line: Seq<char>) -> Seq<char> {
    Seq::new(
        line.len(),
        |i: int|
            if line[i] == ',' {
                ' '
            } else {
                line[i]
            },
    )
}

/// What a line tests: a position and the action expected there. Nothing if it has fewer
/// than four words or its last word is no action index.
pub open spec fn tested(line: Seq<char>) -> Option<(Seq<char>, int)> {
    let parts = words(without_commas(line));
    if parts.len() < 4 {
        None
    } else {
        match number_upto(parts[3], ACTION_SPACE - 1) {
            None => None,
            Some(target) => Some((parts[0].push(' ') + parts[1], target)),
        }
    }
}

/// Reads a line of board, side, value and policy.
pub fn read_test_line(line: &str) -> (sample: Option<(String, usize)>)
    ensures
        match sample {
            Some((fen, target)) => tested(line@) == Some((fen@, target as int)),
            None => tested(line@) is None,
        },
{
    let chars = chars_of(line);
    let mut clean: Vec<char> = Vec::new();
    let mut i: usize = 0;
    while i < chars.len()
        invariant
            i <= chars@.len(),
            clean@ == without_commas(chars@).take(i as int),
        decreases chars@.len() - i,
    {
        if chars[i] == ',' {
            clean.push(' ');
        } else {
            clean.push(chars[i]);
        }
        i += 1;
        assert(clean@ =~= without_commas(chars@).take(i as int));
    }
    assert(clean@ =~= without_commas(chars@));
    let parts = split_words(&clean);
    if parts.len() < 4 {
        return None;
    }
    assert(texts(parts@)[0] == parts@[0]@ && texts(parts@)[1] == parts@[1]@ && texts(parts@)[3]
        == parts@[3]@);
    match parse_usize(&parts[3]) {
        None => None,
        Some(target) => {
            if target >= ACTION_SPACE {
                return None;
            }
            let mut fen: Vec<char> = Vec::new();
            append_all(&mut fen, &parts[0]);
            assert(fen@ =~= parts@[0]@);
            fen.push(' ');
            append_all(&mut fen, &parts[1]);
            Some((string_of(&fen), target))
        },
    }
}

/// How many samples were tested, and how many actions were as expected.
#[derive(Copy, Clone, Debug, PartialEq, Eq, Structural)]
pub struct Tally {
    pub valid: u64,
    pub correct: u64,
}

/// The action that a prediction means: for black it is given as seen from its side.
pub open spec fn meant_action(predicted: int, is_black: bool) -> int {
    if is_black {
        flipped_action(predicted)
    } else {
        predicted
    }
}

impl Tally {
    pub fn new() -> (tally: Tally)
        ensures
            tally.valid == 0,
            tally.correct == 0,
    {
        Tally { valid: 0, correct: 0 }
    }

    /// Counts one prediction.
    pub fn count(&mut self, predicted: usize, is_black: bool, target: usize)
        requires
            predicted < ACTION_SPACE,
            old(self).correct <= old(self).valid < u64::MAX,
        ensures
            final(self).valid == old(self).valid + 1,
            final(self).correct == old(self).correct + (if meant_action(
                predicted as int,
                is_black,
            ) == target {
                1int
            } else {
                0
            }),
            final(self).correct <= final(self).valid,
    {
        let meant = if is_black {
            flip_action_index(predicted)
        } else {
            predicted
        };
        self.valid = self.valid + 1;
        if meant == target {
            self.correct = self.correct + 1;
        }
    }
}

/// A written line of position, value and action index is read back, both as a line of a shard
/// and as a line of training data, where an index beyond the board is out of range.
pub proof fn law_a_written_shard_line_is_read(fen: Seq<char>, value: Seq<char>, policy: int)
    requires
        0 <= policy <= usize::MAX,
        lacks(fen, ','),
        lacks(value, ','),
    ensures
        shard_item((fen.push(',') + value).push(',') + decimal(policy as nat)) == Some(
            (fen, value, policy),
        ),
{
    let n = decimal(policy as nat);
    let parts = seq![fen, value, n];
    lemma_decimal_text(policy as nat);
    assert((fen.push(',') + value).push(',') + n == joined(parts, ',')) by {
        reveal_with_fuel(joined_upto, 4);
    }
    assert forall|i: int| 0 <= i < parts.len() implies lacks(#[trigger] parts[i], ',') by {}
    law_fields_of_joined(parts, ',');
    law_numbers_are_read_back(policy as nat);
}

/// A prediction means the move as its mover sees it: red's as it is, black's turned round.
pub proof fn law_predictions_are_the_movers(predicted: int)
    requires
        0 <= predicted < 8100,
    ensures
        meant_action(predicted, false) == predicted,
        ({
            let meant = meant_action(predicted, true);
            &&& meant / 90 / 9 == 9 - predicted / 90 / 9
            &&& meant / 90 % 9 == 8 - predicted / 90 % 9
            &&& meant % 90 / 9 == 9 - predicted % 90 / 9
            &&& meant % 90 % 9 == 8 - predicted % 90 % 9
        }),
{
    law_a_flipped_action_has_turned_squares(predicted);
}

/// A line of board, side, value and action index tests the position of the first two words for
/// the action of the fourth; an index beyond the board, or fewer words, test nothing.
pub proof fn law_what_a_line_tests(line: Seq<char>, n: nat)
    ensures
        ({
            let parts = words(without_commas(line));
            &&& parts.len() < 4 ==> tested(line) is None
            &&& parts.len() >= 4 && parts[3] == decimal(n) && n < 8100 ==> tested(line) == Some(
                (parts[0].push(' ') + parts[1], n as int),
            )
            &&& parts.len() >= 4 && parts[3] == decimal(n) && n >= 8100 ==> tested(line) is None
        }),
        forall|i: int|
            0 <= i < line.len() ==> #[trigger] without_commas(line)[i] == (if line[i] == ',' {
                ' '
            } else {
                line[i]
            }),
{
    law_numbers_are_read_back(n);
}

} // verus!
