//! The Universal Chinese Chess Interface: moves and commands as text.

pub use crate::fen::parse_fen;

use crate::board::{initial_position, square_at, Board, Color, Position};
use crate::fen::{described, letter_of_piece, piece_letter, read_parts};
use crate::moves::{on_board, packed, Move};
use crate::rules::{
    get_legal_moves, law_legal_moves_are_safe_steps, legal_moves_spec, HistoryEntry, Rules,
};
use crate::scores::ScoreTable;
use crate::search::{law_the_search_answers_a_legal_move, search_best_move, search_spec};
use crate::text::{
    append_all, chars_of, decimal, decimal_text, is_text, law_numbers_are_read_back,
    law_signed_numbers_are_read_back, number, number_upto, parse_number, signed_decimal,
    signed_decimal_text, split_words, string_of, texts, words,
};
use crate::trials::{
    is_trial, law_the_search_answers_a_highest_score, leads, opening, tries_all, Trial,
};
use vstd::prelude::*;

verus! {

// ---------------------------------------------------------------------------
// Moves
// ---------------------------------------------------------------------------
/// A square as text: files `a` to `i` from the left, ranks 0 to 9 from the bottom.
pub open spec fn square_text(sq: int) -> Seq<char> {
    seq![(97 + sq % 16) as char, (57 - sq / 16) as char]
}

/// A move as text: the square it leaves and the square it reaches.
pub open spec fn move_text(m: Move) -> Seq<char> {
    square_text(m.from_spec()) + square_text(m.to_spec())
}

/// Writes a move.
pub fn move_to_ucci_string(m: Move) -> (s: String)
    ensures
        s@ == move_text(m),
{
    let (from_row, from_col) = Board::square_to_coord(m.from_sq());
    let (to_row, to_col) = Board::square_to_coord(m.to_sq());
    let from_file = (97 + from_col as u8) as char;
    let to_file = (97 + to_col as u8) as char;
    let from_rank = (57 - from_row as u8) as char;
    let to_rank = (57 - to_row as u8) as char;
    let mut s = String::new();
    s.push(from_file);
    s.push(from_rank);
    s.push(to_file);
    s.push(to_rank);
    assert(s@ =~= move_text(m));
    s
}

/// The square that a file and a rank name.
pub open spec fn named_square(file: char, rank: char) -> Option<int> {
    if 97 <= file as u32 <= 105 && 48 <= rank as u32 <= 57 {
        Some(square_at(57 - rank as u32, file as u32 - 97))
    } else {
        None
    }
}

/// The squares that a text of four characters names.
pub open spec fn named_squares(s: Seq<char>) -> Option<(int, int)> {
    if s.len() == 4 && named_square(s[0], s[1]) is Some && named_square(s[2], s[3]) is Some {
        Some((named_square(s[0], s[1])->0, named_square(s[2], s[3])->0))
    } else {
        None
    }
}

/// The move that a text names on a board: a capture if the square it reaches is taken.
pub open spec fn named_move(p: Position, s: Seq<char>) -> Option<Move> {
    match named_squares(s) {
        None => None,
        Some((from, to)) => Some(Move(packed(from as usize, to as usize, !p.is_empty(to)))),
    }
}

fn read_square(file: char, rank: char) -> (sq: Option<usize>)
    ensures
        match sq {
            Some(sq) => named_square(file, rank) == Some(sq as int) && on_board(sq as int),
            None => named_square(file, rank) is None,
        },
{
    let f = file as u32;
    let r = rank as u32;
    if f < 97 || f > 105 || r < 48 || r > 57 {
        return None;
    }
    Some(Board::coord_to_square((57 - r) as usize, (f - 97) as usize))
}

/// Reads a move off its characters.
pub fn read_move(board: &Board, chars: &Vec<char>) -> (m: Option<Move>)
    ensures
        m == named_move(board@, chars@),
{
    if chars.len() != 4 {
        return None;
    }
    match (read_square(chars[0], chars[1]), read_square(chars[2], chars[3])) {
        (Some(from_sq), Some(to_sq)) => {
            let is_capture = !board.is_empty(to_sq);
            Some(Move::new(from_sq, to_sq, is_capture))
        },
        _ => None,
    }
}

/// The bytes that a character takes in UTF-8.
pub open spec fn char_bytes(c: char) -> int {
    let u = c as u32;
    if u < 0x80 {
        1
    } else if u < 0x800 {
        2
    } else if u < 0x10000 {
        3
    } else {
        4
    }
}

/// The bytes that a text takes in UTF-8.
pub open spec fn text_bytes(s: Seq<char>) -> int
    decreases s.len(),
{
    if s.len() == 0 {
        0
    } else {
        text_bytes(s.drop_last()) + char_bytes(s.last())
    }
}

/// Four bytes, but fewer characters: such a text cannot be taken apart.
pub open spec fn is_ragged(s: Seq<char>) -> bool {
    text_bytes(s) == 4 && s.len() != 4
}

proof fn lemma_text_bytes(s: Seq<char>)
    ensures
        text_bytes(s) >= s.len(),
    decreases s.len(),
{
    if s.len() > 0 {
        lemma_text_bytes(s.drop_last());
    }
}

fn bytes_of_char(c: char) -> (n: usize)
    ensures
        n == char_bytes(c),
{
    let u = c as u32;
    if u < 0x80 {
        1
    } else if u < 0x800 {
        2
    } else if u < 0x10000 {
        3
    } else {
        4
    }
}

/// Tests for a text of four bytes with fewer characters.
pub fn check_ragged(s: &Vec<char>) -> (ragged: bool)
    ensures
        ragged == is_ragged(s@),
{
    proof {
        lemma_text_bytes(s@);
    }
    if s.len() >= 4 {
        return false;
    }
    let mut bytes: usize = 0;
    let mut i: usize = 0;
    assert(s@.take(0) =~= Seq::<char>::empty());
    while i < s.len()
        invariant
            i <= s@.len() < 4,
            bytes <= 4 * i,
            bytes == text_bytes(s@.take(i as int)),
        decreases s@.len() - i,
    {
        proof {
            let next = s@.take(i + 1);
            assert(next.drop_last() =~= s@.take(i as int));
            assert(next.last() == s@[i as int]);
        }
        bytes += bytes_of_char(s[i]);
        i += 1;
    }
    assert(s@.take(i as int) =~= s@);
    bytes == 4
}

/// Reads a move. It has to be whole characters: four bytes are four characters.
pub fn parse_ucci_move(board: &Board, ucci: &str) -> (m: Option<Move>)
    requires
        !is_ragged(ucci@),
    ensures
        m == named_move(board@, ucci@),
{
    read_move(board, &chars_of(ucci))
}

/// Reading a written move gives it back, with the capture flag as the board has it.
pub proof fn law_moves_are_read_back(p: Position, m: Move)
    requires
        on_board(m.from_spec()),
        on_board(m.to_spec()),
    ensures
        named_squares(move_text(m)) == Some((m.from_spec(), m.to_spec())),
        ({
            let read = named_move(p, move_text(m));
            &&& read is Some
            &&& (read->0).from_spec() == m.from_spec()
            &&& (read->0).to_spec() == m.to_spec()
            &&& (read->0).capture_spec() == !p.is_empty(m.to_spec())
        }),
{
    let from = m.from_spec();
    let to = m.to_spec();
    let s = move_text(m);
    assert(s[0] as u32 == 97 + from % 16);
    assert(s[1] as u32 == 57 - from / 16);
    assert(s[2] as u32 == 97 + to % 16);
    assert(s[3] as u32 == 57 - to / 16);
    Move::lemma_packed(from as usize, to as usize, !p.is_empty(to));
}

/// A move as it is shown to a programmer.
pub open spec fn debug_text(m: Move) -> Seq<char> {
    let flag = if m.capture_spec() {
        "true"@
    } else {
        "false"@
    };
    "Move { from: "@ + decimal(m.from_spec() as nat) + ", to: "@ + decimal(m.to_spec() as nat)
        + ", capture: "@ + flag + " }"@
}

impl Move {
    /// Shows a move to a programmer.
    pub fn debug_string(&self) -> (s: String)
        ensures
            s@ == debug_text(*self),
    {
        let mut out = chars_of("Move { from: ");
        append_all(&mut out, &decimal_text(self.from_sq()));
        append_all(&mut out, &chars_of(", to: "));
        append_all(&mut out, &decimal_text(self.to_sq()));
        append_all(&mut out, &chars_of(", capture: "));
        if self.is_capture() {
            append_all(&mut out, &chars_of("true"));
        } else {
            append_all(&mut out, &chars_of("false"));
        }
        append_all(&mut out, &chars_of(" }"));
        string_of(&out)
    }
}

// ---------------------------------------------------------------------------
// Commands
// ---------------------------------------------------------------------------
/// What a line asks for.
#[derive(Copy, Clone, Debug, PartialEq, Eq, Structural)]
pub enum Command {
    Ucci,
    IsReady,
    /// Set up a position; the words say which.
    Position,
    /// Search to a depth.
    Go(u8),
    Eval,
    Display,
    Quit,
    /// Nothing that is known.
    Unknown,
}

/// The depth to search without another word.
pub const DEFAULT_DEPTH: u8 = 4;

/// What the words of a line ask for.
pub open spec fn command_of(tokens: Seq<Seq<char>>) -> Command {
    if tokens.len() == 0 {
        Command::Unknown
    } else if tokens[0] == "ucci"@ {
        Command::Ucci
    } else if tokens[0] == "isready"@ {
        Command::IsReady
    } else if tokens[0] == "position"@ {
        Command::Position
    } else if tokens[0] == "go"@ {
        Command::Go(
            if tokens.len() > 2 && tokens[1] == "depth"@ {
                match number_upto(tokens[2], 255) {
                    Some(depth) => depth as u8,
                    None => DEFAULT_DEPTH,
                }
            } else {
                DEFAULT_DEPTH
            },
        )
    } else if tokens[0] == "eval"@ {
        Command::Eval
    } else if tokens[0] == "d"@ {
        Command::Display
    } else if tokens[0] == "quit"@ {
        Command::Quit
    } else {
        Command::Unknown
    }
}

/// Reads the words of a line.
pub fn read_command(tokens: &Vec<Vec<char>>) -> (command: Command)
    ensures
        command == command_of(texts(tokens@)),
{
    if tokens.len() == 0 {
        return Command::Unknown;
    }
    let cmd = &tokens[0];
    if is_text(cmd, "ucci") {
        Command::Ucci
    } else if is_text(cmd, "isready") {
        Command::IsReady
    } else if is_text(cmd, "position") {
        Command::Position
    } else if is_text(cmd, "go") {
        let mut depth: u8 = DEFAULT_DEPTH;
        if tokens.len() > 2 && is_text(&tokens[1], "depth") {
            if let Some(d) = parse_number(&tokens[2], 255) {
                depth = d as u8;
            }
        }
        Command::Go(depth)
    } else if is_text(cmd, "eval") {
        Command::Eval
    } else if is_text(cmd, "d") {
        Command::Display
    } else if is_text(cmd, "quit") {
        Command::Quit
    } else {
        Command::Unknown
    }
}

/// The position after the words from `first` up to `n` were played as moves; words that
/// name no move are passed over. `None` where a word cannot be taken apart or a move
/// leaves an empty square.
pub open spec fn played(p: Position, tokens: Seq<Seq<char>>, first: int, n: int) -> Option<Position>
    decreases n - first,
{
    if n <= first {
        Some(p)
    } else {
        match played(p, tokens, first, n - 1) {
            None => None,
            Some(q) => if is_ragged(tokens[n - 1]) {
                None
            } else {
                match named_move(q, tokens[n - 1]) {
                    None => Some(q),
                    Some(m) => if q.piece_at(m.from_spec()) is None {
                        None
                    } else {
                        Some(q.after_move(m))
                    },
                }
            },
        }
    }
}

/// Where the words of a `position` command start from, and the number of words read.
pub open spec fn starting_point(p: Position, tokens: Seq<Seq<char>>) -> (Position, int) {
    if tokens.len() > 1 && tokens[1] == "startpos"@ {
        (initial_position(), 2)
    } else if tokens.len() >= 8 && tokens[1] == "fen"@ {
        (described(tokens[2], Some(tokens[3])), 8)
    } else {
        (p, 0)
    }
}

/// The position that a `position` command sets up.
pub open spec fn position_after(p: Position, tokens: Seq<Seq<char>>) -> Option<Position> {
    let (start, read) = starting_point(p, tokens);
    if tokens.len() > 1 && tokens.len() > read && tokens[read] == "moves"@ {
        played(start, tokens, read + 1, tokens.len() as int)
    } else {
        Some(start)
    }
}

/// Carries out a `position` command. Breaks off, and says so, at a word that cannot be
/// taken apart or a move that leaves an empty square.
pub fn set_position(board: &mut Board, tokens: &Vec<Vec<char>>) -> (done: bool)
    ensures
        match position_after(old(board)@, texts(tokens@)) {
            Some(q) => done && final(board)@ == q,
            None => !done,
        },
{
    let ghost words = texts(tokens@);
    if tokens.len() <= 1 {
        return true;
    }
    let mut moves_idx: usize = 0;
    if is_text(&tokens[1], "startpos") {
        board.set_initial_position();
        moves_idx = 2;
    } else if is_text(&tokens[1], "fen") && tokens.len() >= 8 {
        *board = read_parts(&tokens[2], Some(&tokens[3]));
        moves_idx = 8;
    }
    let ghost start = board@;
    assert((start, moves_idx as int) == starting_point(old(board)@, words));
    if tokens.len() > moves_idx && is_text(&tokens[moves_idx], "moves") {
        let first = moves_idx + 1;
        let mut i: usize = first;
        while i < tokens.len()
            invariant
                first <= i <= tokens@.len(),
                words == texts(tokens@),
                played(start, words, first as int, i as int) == Some(board@),
                position_after(old(board)@, words) == played(
                    start,
                    words,
                    first as int,
                    tokens@.len() as int,
                ),
            decreases tokens@.len() - i,
        {
            let token = &tokens[i];
            assert(words[i as int] == token@);
            if check_ragged(token) {
                proof {
                    lemma_played_ends(start, words, first as int, i + 1, tokens@.len() as int);
                }
                return false;
            }
            if let Some(m) = read_move(board, token) {
                if board.piece_at(m.from_sq()).is_none() {
                    proof {
                        lemma_played_ends(start, words, first as int, i + 1, tokens@.len() as int);
                    }
                    return false;
                }
                board.make_move(m);
            }
            i += 1;
        }
    }
    true
}

/// Once broken off, always broken off.
proof fn lemma_played_ends(p: Position, tokens: Seq<Seq<char>>, first: int, n: int, m: int)
    requires
        first <= n <= m,
        played(p, tokens, first, n) is None,
    ensures
        played(p, tokens, first, m) is None,
    decreases m - first,
{
    if n < m {
        lemma_played_ends(p, tokens, first, n, m - 1);
    }
}

// ---------------------------------------------------------------------------
// Display
// ---------------------------------------------------------------------------
/// A square as it is displayed.
pub open spec fn shown_char(p: Position, row: int, col: int) -> char {
    match p.piece_at(square_at(row, col)) {
        Some(piece) => piece_letter(piece),
        None => '.',
    }
}

/// A row as it is displayed: each square with a space behind it, and the line's end.
pub open spec fn shown_row(p: Position, row: int) -> Seq<char> {
    Seq::new(
        19,
        |i: int|
            if i == 18 {
                '\n'
            } else if i % 2 == 1 {
                ' '
            } else {
                shown_char(p, row, i / 2)
            },
    )
}

/// The first `n` rows as they are displayed.
pub open spec fn shown_rows(p: Position, n: int) -> Seq<char>
    decreases n,
{
    if n <= 0 {
        Seq::empty()
    } else {
        shown_rows(p, n - 1) + shown_row(p, n - 1)
    }
}

/// A board as it is displayed.
pub open spec fn shown_board(p: Position) -> Seq<char> {
    let side = match p.side_to_move {
        Color::Red => "Red"@,
        Color::Black => "Black"@,
    };
    ("Side to move: "@ + side).push('\n') + shown_rows(p, 10)
}

/// Draws a board with letters.
pub fn display_board(board: &Board) -> (s: String)
    ensures
        s@ == shown_board(board@),
{
    let mut out = chars_of("Side to move: ");
    let side = match board.side_to_move {
        Color::Red => chars_of("Red"),
        Color::Black => chars_of("Black"),
    };
    append_all(&mut out, &side);
    out.push('\n');
    let ghost head = out@;
    let mut row: usize = 0;
    assert(head + shown_rows(board@, 0) =~= head);
    while row < 10
        invariant
            row <= 10,
            out@ == head + shown_rows(board@, row as int),
        decreases 10 - row,
    {
        let ghost before = out@;
        let ghost line = shown_row(board@, row as int);
        let mut col: usize = 0;
        assert(before + line.take(0) =~= before);
        while col < 9
            invariant
                col <= 9,
                row < 10,
                line == shown_row(board@, row as int),
                out@ == before + line.take(2 * col),
            decreases 9 - col,
        {
            let sq = Board::coord_to_square(row, col);
            let c = match board.piece_at(sq) {
                Some(piece) => letter_of_piece(piece),
                None => '.',
            };
            out.push(c);
            out.push(' ');
            assert(line[2 * col] == c);
            assert(line[2 * col + 1] == ' ');
            assert(out@ =~= before + line.take(2 * col + 2));
            col += 1;
        }
        out.push('\n');
        assert(out@ =~= before + line);
        row += 1;
        assert(out@ =~= head + shown_rows(board@, row as int));
    }
    string_of(&out)
}

// ---------------------------------------------------------------------------
// The engine
// ---------------------------------------------------------------------------
/// An engine between two lines: its board and its table of scores.
pub struct Engine<T> {
    pub board: Board,
    pub table: T,
}

/// What the engine does about a line.
pub enum Response {
    /// Prints a text.
    Text(String),
    /// Stops.
    Quit,
    /// Cannot carry it out.
    Failed,
}

/// What the engine does about a line, as a mathematical value.
pub enum Answer {
    Text(Seq<char>),
    Quit,
    Failed,
}

impl View for Response {
    type V = Answer;

    open spec fn view(&self) -> Answer {
        match self {
            Response::Text(s) => Answer::Text(s@),
            Response::Quit => Answer::Quit,
            Response::Failed => Answer::Failed,
        }
    }
}

/// How the engine makes itself known.
pub open spec fn greeting() -> Seq<char> {
    "id name Wisdom Engine"@.push('\n') + "id author Quang Huy"@.push('\n') + "ucciok"@.push('\n')
}

/// The answer to a line, with the position and the table after it.
pub open spec fn answer_to<R: Rules, T: ScoreTable>(
    rules: &R,
    p: Position,
    v: T::V,
    tokens: Seq<Seq<char>>,
) -> (Answer, Position, T::V) {
    match command_of(tokens) {
        Command::Ucci => (Answer::Text(greeting()), p, v),
        Command::IsReady => (Answer::Text("readyok"@.push('\n')), p, v),
        Command::Position => match position_after(p, tokens) {
            Some(q) => (Answer::Text(Seq::empty()), q, v),
            None => (Answer::Failed, p, v),
        },
        Command::Go(depth) => if legal_moves_spec(rules, p).len() == 0 {
            (Answer::Failed, p, v)
        } else {
            let (best, w) = search_spec::<R, T>(rules, p, depth, v, Seq::empty());
            match best {
                Some(m) => (Answer::Text(("bestmove "@ + move_text(m)).push('\n')), p, w),
                None => (Answer::Failed, p, w),
            }
        },
        Command::Eval => (
            Answer::Text(
                ("info eval "@ + signed_decimal(rules.evaluate_spec(p) as int)).push('\n'),
            ),
            p,
            v,
        ),
        Command::Display => (Answer::Text(shown_board(p)), p, v),
        Command::Quit => (Answer::Quit, p, v),
        Command::Unknown => (Answer::Text(Seq::empty()), p, v),
    }
}

/// The greeting, line by line.
fn greeting_text() -> (s: String)
    ensures
        s@ == greeting(),
{
    let mut out = chars_of("id name Wisdom Engine");
    out.push('\n');
    append_all(&mut out, &chars_of("id author Quang Huy"));
    out.push('\n');
    append_all(&mut out, &chars_of("ucciok"));
    out.push('\n');
    assert(out@ =~= greeting());
    string_of(&out)
}

impl<T: ScoreTable> Engine<T> {
    /// An engine at the start of a game.
    pub fn new(table: T) -> (engine: Self)
        ensures
            engine.board@ == initial_position(),
            engine.table == table,
    {
        let mut board = Board::new();
        board.set_initial_position();
        Engine { board, table }
    }

    /// Answers a line.
    pub fn respond<R: Rules>(&mut self, rules: &R, line: &str) -> (response: Response)
        ensures
            (response@, final(self).board@, final(self).table@) == answer_to::<R, T>(
                rules,
                old(self).board@,
                old(self).table@,
                words(line@),
            ),
    {
        let tokens = split_words(&chars_of(line));
        match read_command(&tokens) {
            Command::Ucci => Response::Text(greeting_text()),
            Command::IsReady => {
                let mut out = chars_of("readyok");
                out.push('\n');
                Response::Text(string_of(&out))
            },
            Command::Position => {
                let mut board = self.board;
                if set_position(&mut board, &tokens) {
                    self.board = board;
                    Response::Text(String::new())
                } else {
                    Response::Failed
                }
            },
            Command::Go(depth) => self.go(rules, depth),
            Command::Eval => {
                let mut out = chars_of("info eval ");
                append_all(&mut out, &signed_decimal_text(rules.evaluate(&self.board)));
                out.push('\n');
                Response::Text(string_of(&out))
            },
            Command::Display => Response::Text(display_board(&self.board)),
            Command::Quit => Response::Quit,
            Command::Unknown => Response::Text(String::new()),
        }
    }

    /// Searches to a depth and tells the best move.
    fn go<R: Rules>(&mut self, rules: &R, depth: u8) -> (response: Response)
        ensures
            final(self).board@ == old(self).board@,
            ({
                let p = old(self).board@;
                if legal_moves_spec(rules, p).len() == 0 {
                    response@ == Answer::Failed && final(self).table@ == old(self).table@
                } else {
                    let (best, w) = search_spec::<R, T>(
                        rules,
                        p,
                        depth,
                        old(self).table@,
                        Seq::empty(),
                    );
                    &&& final(self).table@ == w
                    &&& response@ == match best {
                        Some(m) => Answer::Text(("bestmove "@ + move_text(m)).push('\n')),
                        None => Answer::Failed,
                    }
                }
            }),
    {
        if get_legal_moves(rules, &mut self.board).len() == 0 {
            return Response::Failed;
        }
        let no_history: Vec<HistoryEntry> = Vec::new();
        assert(no_history@ =~= Seq::<HistoryEntry>::empty());
        match search_best_move(rules, &mut self.board, depth, &mut self.table, &no_history) {
            Some(best) => {
                let mut out = chars_of("bestmove ");
                append_all(&mut out, &chars_of(move_to_ucci_string(best).as_str()));
                out.push('\n');
                Response::Text(string_of(&out))
            },
            None => Response::Failed,
        }
    }
}

/// The engine's answer names a legal move, and whoever reads it back and plays it comes
/// to the position that the engine had in mind.
pub proof fn law_the_told_move_can_be_played<R: Rules, T: ScoreTable>(
    rules: &R,
    p: Position,
    v: T::V,
    tokens: Seq<Seq<char>>,
)
    requires
        p.cells.len() == 256,
        command_of(tokens) is Go,
        answer_to::<R, T>(rules, p, v, tokens).0 is Text,
    ensures
        exists|m: Move| #[trigger]
            legal_moves_spec(rules, p).contains(m) && answer_to::<R, T>(rules, p, v, tokens).0
                == Answer::Text(("bestmove "@ + move_text(m)).push('\n')) && p.is_safe_step(m) && (
            named_move(p, move_text(m)) matches Some(read) && p.after_move(read) == p.after_move(m)),
{
    let depth = command_of(tokens)->Go_0;
    law_the_search_answers_a_legal_move::<R, T>(rules, p, depth, v, Seq::empty());
    let m = search_spec::<R, T>(rules, p, depth, v, Seq::empty()).0->0;
    let legal = legal_moves_spec(rules, p);
    assert(legal.contains(m));
    law_legal_moves_are_safe_steps(rules, p);
    let i = choose|i: int| 0 <= i < legal.len() && legal[i] == m;
    assert(p.is_safe_step(legal[i]));
    law_moves_are_read_back(p, m);
    reveal(Position::after_move);
}

/// Only a `position` line moves the pieces, and only a search touches the table.
pub proof fn law_other_lines_change_nothing<R: Rules, T: ScoreTable>(
    rules: &R,
    p: Position,
    v: T::V,
    tokens: Seq<Seq<char>>,
)
    ensures
        command_of(tokens) != Command::Position ==> answer_to::<R, T>(rules, p, v, tokens).1 == p,
        !(command_of(tokens) is Go) ==> answer_to::<R, T>(rules, p, v, tokens).2 == v,
{
}

/// A `position` line with a starting point of its own sets up the same position whatever
/// stood on the board before.
pub proof fn law_a_position_forgets_the_last(p: Position, q: Position, tokens: Seq<Seq<char>>)
    requires
        tokens.len() > 1,
        tokens[1] == "startpos"@ || (tokens[1] == "fen"@ && tokens.len() >= 8),
    ensures
        position_after(p, tokens) == position_after(q, tokens),
{
}

/// A move is written with the file and the rank that it leaves and those that it reaches: the
/// first column is `a`, and the last row is 0.
pub proof fn law_how_a_move_is_written(m: Move)
    requires
        on_board(m.from_spec()),
        on_board(m.to_spec()),
    ensures
        ({
            let s = move_text(m);
            &&& s.len() == 4
            &&& s[0] as int - 'a' as int == m.from_spec() % 16
            &&& s[1] as int - '0' as int == 9 - m.from_spec() / 16
            &&& s[2] as int - 'a' as int == m.to_spec() % 16
            &&& s[3] as int - '0' as int == 9 - m.to_spec() / 16
        }),
{
}

/// A text names a move if and only if it is a file from `a` to `i` and a rank from 0 to 9,
/// twice; the move goes from the one square to the other, and captures where a piece stands.
pub proof fn law_what_a_text_names(p: Position, s: Seq<char>)
    ensures
        ({
            let named = named_move(p, s);
            let fc = s[0] as int - 'a' as int;
            let fr = 9 - (s[1] as int - '0' as int);
            let tc = s[2] as int - 'a' as int;
            let tr = 9 - (s[3] as int - '0' as int);
            &&& named is Some <==> s.len() == 4 && 0 <= fc <= 8 && 0 <= fr <= 9 && 0 <= tc <= 8 && 0
                <= tr <= 9
            &&& named is Some ==> {
                &&& (named->0).from_spec() == 16 * fr + fc
                &&& (named->0).to_spec() == 16 * tr + tc
                &&& (named->0).capture_spec() <==> p.cells[16 * tr + tc] is Some
            }
        }),
{
    let fc = s[0] as int - 'a' as int;
    let fr = 9 - (s[1] as int - '0' as int);
    let tc = s[2] as int - 'a' as int;
    let tr = 9 - (s[3] as int - '0' as int);
    lemma_named_square(s[0], s[1]);
    lemma_named_square(s[2], s[3]);
    if named_squares(s) is Some {
        let from = 16 * fr + fc;
        let to = 16 * tr + tc;
        assert(on_board(from) && on_board(to));
        Move::lemma_packed(from as usize, to as usize, !p.is_empty(to));
    }
}

/// The square of a file and a rank, by its row and column.
proof fn lemma_named_square(file: char, rank: char)
    ensures
        ({
            let col = file as int - 'a' as int;
            let row = 9 - (rank as int - '0' as int);
            &&& named_square(file, rank) is Some <==> 0 <= col <= 8 && 0 <= row <= 9
            &&& named_square(file, rank) is Some ==> named_square(file, rank)->0 == 16 * row + col
        }),
{
}

/// Later words do not change what the earlier ones played.
proof fn lemma_played_prefix(
    p: Position,
    tokens: Seq<Seq<char>>,
    w: Seq<char>,
    first: int,
    n: int,
)
    requires
        0 <= first,
        n <= tokens.len(),
    ensures
        played(p, tokens.push(w), first, n) == played(p, tokens, first, n),
    decreases n - first,
{
    if n > first {
        lemma_played_prefix(p, tokens, w, first, n - 1);
    }
}

/// The moves of a `position` line are played one after the other: one more word plays its
/// move on the position reached so far; a word that names no move changes nothing; and a move
/// from an empty square, or a word that cannot be taken apart, breaks the line off.
pub proof fn law_moves_are_played_one_after_the_other(
    p: Position,
    tokens: Seq<Seq<char>>,
    w: Seq<char>,
)
    requires
        tokens.len() >= 3,
        tokens[1] == "startpos"@ && tokens[2] == "moves"@ || tokens.len() >= 9 && tokens[1]
            == "fen"@ && tokens[8] == "moves"@,
    ensures
        ({
            let before = position_after(p, tokens);
            let after = position_after(p, tokens.push(w));
            &&& before is None ==> after is None
            &&& before matches Some(q) ==> if is_ragged(w) {
                after is None
            } else {
                match named_move(q, w) {
                    None => after == Some(q),
                    Some(m) => if q.piece_at(m.from_spec()) is None {
                        after is None
                    } else {
                        after == Some(q.after_move(m))
                    },
                }
            }
        }),
{
    reveal_strlit("startpos");
    reveal_strlit("fen");
    assert("startpos"@.len() == 8 && "fen"@.len() == 3);
    let (start, read) = starting_point(p, tokens);
    let more = tokens.push(w);
    assert(starting_point(p, more) == (start, read));
    assert(more[read] == tokens[read]);
    lemma_played_prefix(start, tokens, w, read + 1, tokens.len() as int);
}

/// Where a `position` line starts from: the start of a game, or the position that its board and
/// its word for the side describe, whatever stood there before. Without moves behind it, that
/// is where it ends, too.
pub proof fn law_where_a_position_line_starts(p: Position, tokens: Seq<Seq<char>>)
    ensures
        tokens.len() == 2 && tokens[1] == "startpos"@ ==> position_after(p, tokens) == Some(
            initial_position(),
        ),
        tokens.len() == 3 && tokens[1] == "startpos"@ && tokens[2] == "moves"@ ==> position_after(
            p,
            tokens,
        ) == Some(initial_position()),
        tokens.len() == 8 && tokens[1] == "fen"@ ==> position_after(p, tokens) == Some(
            described(tokens[2], Some(tokens[3])),
        ),
        tokens.len() == 9 && tokens[1] == "fen"@ && tokens[8] == "moves"@ ==> position_after(
            p,
            tokens,
        ) == Some(described(tokens[2], Some(tokens[3]))),
        tokens.len() <= 1 ==> position_after(p, tokens) == Some(p),
{
    reveal_strlit("startpos");
    reveal_strlit("fen");
    assert("startpos"@.len() == 8 && "fen"@.len() == 3);
}

/// The first word of a line says what it asks for, and no other word does.
pub proof fn law_the_first_word_is_the_command(tokens: Seq<Seq<char>>)
    ensures
        command_of(tokens) == Command::Ucci <==> tokens.len() > 0 && tokens[0] == "ucci"@,
        command_of(tokens) == Command::IsReady <==> tokens.len() > 0 && tokens[0] == "isready"@,
        command_of(tokens) == Command::Position <==> tokens.len() > 0 && tokens[0] == "position"@,
        command_of(tokens) is Go <==> tokens.len() > 0 && tokens[0] == "go"@,
        command_of(tokens) == Command::Eval <==> tokens.len() > 0 && tokens[0] == "eval"@,
        command_of(tokens) == Command::Display <==> tokens.len() > 0 && tokens[0] == "d"@,
        command_of(tokens) == Command::Quit <==> tokens.len() > 0 && tokens[0] == "quit"@,
{
    reveal_strlit("ucci");
    reveal_strlit("isready");
    reveal_strlit("position");
    reveal_strlit("go");
    reveal_strlit("eval");
    reveal_strlit("d");
    reveal_strlit("quit");
    assert("ucci"@[0] == 'u' && "isready"@[0] == 'i' && "position"@[0] == 'p');
    assert("go"@[0] == 'g' && "eval"@[0] == 'e' && "d"@[0] == 'd' && "quit"@[0] == 'q');
}

/// A depth that is asked for is searched to; without one it is four.
pub proof fn law_the_asked_depth_is_searched(n: u8)
    ensures
        command_of(seq!["go"@, "depth"@, decimal(n as nat)]) == Command::Go(n),
        command_of(seq!["go"@]) == Command::Go(4),
{
    law_the_first_word_is_the_command(seq!["go"@, "depth"@, decimal(n as nat)]);
    law_the_first_word_is_the_command(seq!["go"@]);
    law_numbers_are_read_back(n as nat);
}

/// What is told for a search is the move that the search answers from the position and the
/// table as they stand: the first of those with the highest score among all legal moves, or
/// the first legal one where none scores above the floor.
pub proof fn law_the_engine_tells_a_highest_score<R: Rules, T: ScoreTable>(
    rules: &R,
    p: Position,
    v: T::V,
    tokens: Seq<Seq<char>>,
    depth: u8,
) -> (found: (Trial<T::V>, Move))
    requires
        p.cells.len() == 256,
        command_of(tokens) == Command::Go(depth),
        answer_to::<R, T>(rules, p, v, tokens).0 is Text,
    ensures
        is_trial::<R, T>(rules, p, opening(depth), Seq::empty(), found.0),
        found.0.tables[0] == v,
        tries_all(rules, p, opening(depth), found.0),
        legal_moves_spec(rules, p).contains(found.1),
        answer_to::<R, T>(rules, p, v, tokens).0 == Answer::Text(
            ("bestmove "@ + move_text(found.1)).push('\n'),
        ),
        (exists|k: int| #[trigger] leads(found.0, k) && found.0.order[k] == found.1) || (forall|
            j: int,
        |
            0 <= j < found.0.scores.len() ==> #[trigger] found.0.scores[j] <= -50000) && found.1
            == legal_moves_spec(rules, p)[0],
{
    let t = law_the_search_answers_a_highest_score::<R, T>(rules, p, depth, v, Seq::empty());
    law_the_search_answers_a_legal_move::<R, T>(rules, p, depth, v, Seq::empty());
    let m = search_spec::<R, T>(rules, p, depth, v, Seq::empty()).0->0;
    (t, m)
}

/// The rows are shown one below the other.
proof fn lemma_shown_rows(p: Position, n: int, row: int, i: int)
    requires
        0 <= row < n,
        0 <= i < 19,
    ensures
        shown_rows(p, n).len() == 19 * n,
        shown_rows(p, n)[19 * row + i] == shown_row(p, row)[i],
    decreases n,
{
    if row < n - 1 {
        lemma_shown_rows(p, n - 1, row, i);
    } else {
        lemma_shown_len(p, n - 1);
    }
}

proof fn lemma_shown_len(p: Position, n: int)
    requires
        n >= 0,
    ensures
        shown_rows(p, n).len() == 19 * n,
    decreases n,
{
    if n > 0 {
        lemma_shown_len(p, n - 1);
    }
}

/// A displayed board tells the side to move and then shows, row by row, the letter of each
/// piece and a point for each empty square, with a space behind each.
pub proof fn law_a_board_is_displayed(p: Position, row: int, col: int)
    requires
        0 <= row <= 9,
        0 <= col <= 8,
    ensures
        ({
            let side = if p.side_to_move == Color::Red {
                "Red"@
            } else {
                "Black"@
            };
            let rows = shown_board(p).skip(15 + side.len() as int);
            let there = p.cells[16 * row + col];
            &&& rows.len() == 190
            &&& shown_board(p).take(14 + side.len() as int) == "Side to move: "@ + side
            &&& rows[19 * row + 2 * col] == (match there {
                Some(piece) => piece_letter(piece),
                None => '.',
            })
            &&& rows[19 * row + 2 * col + 1] == ' '
            &&& rows[19 * row + 18] == '\n'
        }),
{
    lemma_shown_head(p);
    lemma_shown_rows(p, 10, row, 2 * col);
    lemma_shown_rows(p, 10, row, 2 * col + 1);
    lemma_shown_rows(p, 10, row, 18);
    assert(on_board(square_at(row, col)));
}

/// The side to move is told above the rows.
proof fn lemma_shown_head(p: Position)
    ensures
        ({
            let side = if p.side_to_move == Color::Red {
                "Red"@
            } else {
                "Black"@
            };
            &&& shown_board(p).skip(15 + side.len() as int) == shown_rows(p, 10)
            &&& shown_board(p).take(14 + side.len() as int) == "Side to move: "@ + side
        }),
{
    let side = if p.side_to_move == Color::Red {
        "Red"@
    } else {
        "Black"@
    };
    let title = "Side to move: "@;
    assert(title.len() == 14) by {
        reveal_strlit("Side to move: ");
    }
    let head = (title + side).push('\n');
    assert(head.len() == 15 + side.len());
    assert(shown_board(p) == head + shown_rows(p, 10));
    assert(shown_board(p).skip(15 + side.len() as int) =~= shown_rows(p, 10));
    assert(shown_board(p).take(14 + side.len() as int) =~= title + side);
}

/// What the engine is asked, it answers: that it is ready, what the side to move is ahead, signed
/// and in digits that can be read back, and nothing to a line it does not know.
pub proof fn law_what_the_engine_answers<R: Rules, T: ScoreTable>(
    rules: &R,
    p: Position,
    v: T::V,
    tokens: Seq<Seq<char>>,
)
    requires
        tokens.len() > 0,
    ensures
        ({
            let (answer, _, _) = answer_to::<R, T>(rules, p, v, tokens);
            let ahead = rules.evaluate_spec(p) as int;
            let known = seq![
                "ucci"@,
                "isready"@,
                "position"@,
                "go"@,
                "eval"@,
                "d"@,
                "quit"@,
            ];
            &&& tokens[0] == "isready"@ ==> answer == Answer::Text("readyok"@.push('\n'))
            &&& tokens[0] == "eval"@ ==> (answer matches Answer::Text(line) && {
                let digits = line.subrange(10, line.len() - 1);
                &&& line.len() >= 12
                &&& line.take(10) == "info eval "@
                &&& line.last() == '\n'
                &&& ahead >= 0 ==> number(digits) == Some(ahead)
                &&& ahead < 0 ==> digits[0] == '-' && number(digits.skip(1)) == Some(-ahead)
            })
            &&& answer is Quit <==> tokens[0] == "quit"@
            &&& !known.contains(tokens[0]) ==> answer == Answer::Text(Seq::empty())
        }),
{
    law_the_first_word_is_the_command(tokens);
    let ahead = rules.evaluate_spec(p) as int;
    let digits = signed_decimal(ahead);
    let line = ("info eval "@ + digits).push('\n');
    let known = seq!["ucci"@, "isready"@, "position"@, "go"@, "eval"@, "d"@, "quit"@];
    law_signed_numbers_are_read_back(ahead);
    reveal_strlit("info eval ");
    assert(line.take(10) =~= "info eval "@);
    assert(line.subrange(10, line.len() - 1) =~= digits);
    assert(digits.len() > 0) by {
        if digits.len() == 0 {
            assert(number(digits) is None);
        }
    }
    if !known.contains(tokens[0]) {
        assert(known[0] == "ucci"@ && known[1] == "isready"@ && known[2] == "position"@ && known[3]
            == "go"@ && known[4] == "eval"@ && known[5] == "d"@ && known[6] == "quit"@);
        assert forall|i: int| 0 <= i < 7 implies tokens[0] != #[trigger] known[i] by {
            if tokens[0] == known[i] {
                assert(known.contains(tokens[0]));
            }
        }
    }
}

} // verus!
