//! A game at the board: what clicks and buttons do.

use crate::board::{initial_piece, initial_position, square_at, Board, Color, Position};
use crate::moves::{on_board, Move};
use crate::rules::{
    apply_move_to_game, entry_of, get_legal_moves, law_legal_moves_are_safe_steps, legal_moves_spec,
    reversible, HistoryEntry, RepetitionResult, Rules,
};
use crate::ucci::{move_text, move_to_ucci_string};
use vstd::prelude::*;

verus! {

#[derive(Copy, Clone, Debug, PartialEq, Eq, Structural)]
pub enum GameMode {
    EngineVsPlayer,
    EngineVsEngine,
}

/// How a game ended.
#[derive(Copy, Clone, Debug, PartialEq, Eq, Structural)]
pub enum Ending {
    /// Nothing to tell yet.
    Plain,
    PlayerViolation,
    OpponentViolation,
    EngineViolation,
    EngineWins,
    Repetition,
    Checkmate,
}

impl Ending {
    pub open spec fn text_spec(self) -> Seq<char> {
        match self {
            Ending::Plain => "GAME OVER"@,
            Ending::PlayerViolation => "Rule Violation: You Lose!"@,
            Ending::OpponentViolation => "Opponent Violation: You Win!"@,
            Ending::EngineViolation => "Engine Violation: You Win!"@,
            Ending::EngineWins => "Rule Violation: Engine Wins!"@,
            Ending::Repetition => "Draw by Repetition!"@,
            Ending::Checkmate => "Checkmate!"@,
        }
    }

    /// What is shown when the game is over.
    pub fn text(&self) -> (s: &'static str)
        ensures
            s@ == self.text_spec(),
    {
        match self {
            Ending::Plain => "GAME OVER",
            Ending::PlayerViolation => "Rule Violation: You Lose!",
            Ending::OpponentViolation => "Opponent Violation: You Win!",
            Ending::EngineViolation => "Engine Violation: You Win!",
            Ending::EngineWins => "Rule Violation: Engine Wins!",
            Ending::Repetition => "Draw by Repetition!",
            Ending::Checkmate => "Checkmate!",
        }
    }
}

/// The line beside the board.
#[derive(Copy, Clone, Debug, PartialEq, Eq, Structural)]
pub enum Status {
    Ready,
    YourTurn,
    Lost,
    Won,
    Draw,
    Checkmate,
    /// The figures of the engine's last search.
    Engine,
}

impl Status {
    pub open spec fn text_spec(self) -> Option<Seq<char>> {
        match self {
            Status::Ready => Some("Ready"@),
            Status::YourTurn => Some("Your turn"@),
            Status::Lost => Some("LOST"@),
            Status::Won => Some("WON"@),
            Status::Draw => Some("DRAW"@),
            Status::Checkmate => Some("CHECKMATE"@),
            Status::Engine => None,
        }
    }

    /// What is shown, unless it is the figures of a search.
    pub fn text(&self) -> (s: Option<&'static str>)
        ensures
            match s {
                Some(t) => self.text_spec() == Some(t@),
                None => self.text_spec() is None,
            },
    {
        match self {
            Status::Ready => Some("Ready"),
            Status::YourTurn => Some("Your turn"),
            Status::Lost => Some("LOST"),
            Status::Won => Some("WON"),
            Status::Draw => Some("DRAW"),
            Status::Checkmate => Some("CHECKMATE"),
            Status::Engine => None,
        }
    }
}

// ---------------------------------------------------------------------------
// The view of the board
// ---------------------------------------------------------------------------
/// The row at which a row of the board is drawn: the player's side is at the bottom.
pub fn display_row(r: usize, human_color: Color) -> (row: usize)
    requires
        human_color == Color::Black ==> r <= 9,
    ensures
        row == (if human_color == Color::Red {
            r as int
        } else {
            9 - r
        }),
{
    if human_color == Color::Red {
        r
    } else {
        9 - r
    }
}

/// The column at which a column of the board is drawn.
pub fn display_col(c: usize, human_color: Color) -> (col: usize)
    requires
        human_color == Color::Black ==> c <= 8,
    ensures
        col == (if human_color == Color::Red {
            c as int
        } else {
            8 - c
        }),
{
    if human_color == Color::Red {
        c
    } else {
        8 - c
    }
}

/// Writes a move with files `a` to `i` and ranks 0 to 9 from the bottom.
pub fn format_move(m: Move) -> (s: String)
    requires
        on_board(m.from_spec()),
        on_board(m.to_spec()),
    ensures
        s@ == move_text(m),
{
    move_to_ucci_string(m)
}

// ---------------------------------------------------------------------------
// The session
// ---------------------------------------------------------------------------
/// The fewest and the most playouts for a move, and the step between.
pub const MIN_SIMULATIONS: usize = 100;

pub const MAX_SIMULATIONS: usize = 5000;

pub const SIMULATION_STEP: usize = 100;

/// A game at the board.
pub struct Session {
    pub board: Board,
    pub history: Vec<HistoryEntry>,
    pub selected_sq: Option<usize>,
    /// The legal moves of the selected piece.
    pub legal_moves: Vec<Move>,
    pub game_over: bool,
    pub ending: Ending,
    pub status: Status,
    pub game_mode: GameMode,
    pub human_color: Color,
    pub simulations: usize,
}

/// A session as a mathematical value.
pub struct SessionState {
    pub p: Position,
    pub history: Seq<HistoryEntry>,
    pub selected: Option<usize>,
    pub moves: Seq<Move>,
    pub over: bool,
    pub ending: Ending,
    pub status: Status,
    pub mode: GameMode,
    pub human: Color,
    pub simulations: usize,
}

impl View for Session {
    type V = SessionState;

    open spec fn view(&self) -> SessionState {
        SessionState {
            p: self.board@,
            history: self.history@,
            selected: self.selected_sq,
            moves: self.legal_moves@,
            over: self.game_over,
            ending: self.ending,
            status: self.status,
            mode: self.game_mode,
            human: self.human_color,
            simulations: self.simulations,
        }
    }
}

/// A move of the list that goes to a square: the first one.
pub open spec fn first_to(moves: Seq<Move>, sq: int) -> Option<Move>
    decreases moves.len(),
{
    if moves.len() == 0 {
        None
    } else if moves[0].to_spec() == sq {
        Some(moves[0])
    } else {
        first_to(moves.skip(1), sq)
    }
}

/// The moves of the list that leave a square.
pub open spec fn moves_leaving(moves: Seq<Move>, sq: int) -> Seq<Move> {
    moves.filter(|m: Move| m.from_spec() == sq)
}

impl SessionState {
    /// The moves on offer can be played.
    pub open spec fn sound(self) -> bool {
        forall|i: int| 0 <= i < self.moves.len() ==> self.p.is_step(#[trigger] self.moves[i])
    }

    /// A new game under the same settings.
    pub open spec fn restarted(self) -> SessionState {
        SessionState {
            p: initial_position(),
            history: Seq::empty(),
            selected: None,
            moves: Seq::empty(),
            over: false,
            ending: Ending::Plain,
            status: Status::Ready,
            ..self
        }
    }

    /// It is for the player to move.
    pub open spec fn human_turn(self) -> bool {
        self.mode == GameMode::EngineVsPlayer && self.p.side_to_move == self.human
    }

    /// Nothing is selected.
    pub open spec fn deselected(self) -> SessionState {
        SessionState { selected: None, moves: Seq::empty(), ..self }
    }

    /// The piece on a square is selected, with its legal moves.
    pub open spec fn with_selected<R: Rules>(self, rules: &R, sq: int) -> SessionState {
        SessionState {
            selected: Some(sq as usize),
            moves: moves_leaving(legal_moves_spec(rules, self.p), sq),
            ..self
        }
    }

    /// The game ends so.
    pub open spec fn ended(self, ending: Ending, status: Status) -> SessionState {
        SessionState { over: true, ending, status, ..self }
    }

    /// A move was played.
    pub open spec fn played<R: Rules>(self, rules: &R, m: Move) -> SessionState {
        SessionState {
            p: self.p.after_move(m),
            history: self.history.push(entry_of(rules, self.p, m, reversible(self.p, m))),
            ..self
        }
    }

    /// The judgement on a repetition, looked for from the fourth move on.
    pub open spec fn verdict<R: Rules>(self, rules: &R) -> RepetitionResult {
        if self.history.len() >= 4 {
            rules.repetition_spec(self.p, self.history, 2)
        } else {
            RepetitionResult::Undecided
        }
    }

    /// How the game goes on after the player's move.
    pub open spec fn after_player<R: Rules>(self, rules: &R) -> SessionState {
        match self.verdict(rules) {
            RepetitionResult::Win => self.ended(Ending::PlayerViolation, Status::Lost),
            RepetitionResult::Loss => self.ended(Ending::OpponentViolation, Status::Won),
            RepetitionResult::Draw => self.ended(Ending::Repetition, Status::Draw),
            RepetitionResult::Undecided => if legal_moves_spec(rules, self.p).len() == 0 {
                self.ended(Ending::Checkmate, Status::Checkmate)
            } else {
                SessionState { status: Status::YourTurn, ..self }
            },
        }
    }

    /// How the game goes on after the engine's move.
    pub open spec fn after_engine<R: Rules>(self, rules: &R) -> SessionState {
        match self.verdict(rules) {
            RepetitionResult::Win => self.ended(Ending::EngineViolation, Status::Won),
            RepetitionResult::Loss => self.ended(Ending::EngineWins, Status::Lost),
            RepetitionResult::Draw => self.ended(Ending::Repetition, Status::Draw),
            RepetitionResult::Undecided => if legal_moves_spec(rules, self.p).len() == 0 {
                self.ended(Ending::Checkmate, Status::Checkmate)
            } else {
                self
            },
        }
    }

    /// A click on a square of the board: a move of the selected piece is played; else a
    /// piece of the player is selected; else nothing is.
    pub open spec fn clicked<R: Rules>(self, rules: &R, sq: int) -> SessionState {
        let own = match self.p.piece_at(sq) {
            Some(piece) => piece.color == self.human,
            None => false,
        };
        let found = if self.selected is Some {
            first_to(self.moves, sq)
        } else {
            None
        };
        if found is Some {
            self.deselected().played(rules, found->0).after_player(rules)
        } else if own {
            self.with_selected(rules, sq)
        } else if self.selected is Some {
            self.deselected()
        } else {
            self
        }
    }

    /// The square that is drawn at a row and a column.
    pub open spec fn drawn_square(self, row: int, col: int) -> int {
        if self.human == Color::Red {
            square_at(row, col)
        } else {
            square_at(9 - row, 8 - col)
        }
    }
}

/// A click hits the square that is drawn there.
pub proof fn law_clicks_hit_what_is_drawn(s: SessionState, row: int, col: int)
    requires
        0 <= row <= 9,
        0 <= col <= 8,
    ensures
        ({
            let drawn_row = if s.human == Color::Red {
                row
            } else {
                9 - row
            };
            let drawn_col = if s.human == Color::Red {
                col
            } else {
                8 - col
            };
            s.drawn_square(drawn_row, drawn_col) == square_at(row, col)
        }),
{
}

/// How a game at the board stands after the engine's move. A repetition, looked for once
/// four moves were played, ends it for the one who has to give way; without a repetition
/// the player, if left without a legal move, is mated; else the game goes on as it was.
pub proof fn law_how_the_engines_move_ends_the_game<R: Rules>(rules: &R, s: SessionState, m: Move)
    ensures
        ({
            let t = (SessionState { status: Status::Engine, ..s }).played(rules, m).after_engine(
                rules,
            );
            let stuck = legal_moves_spec(rules, t.p).len() == 0;
            let repeated = t.history.len() >= 4 && rules.repetition_spec(t.p, t.history, 2)
                != RepetitionResult::Undecided;
            let result = rules.repetition_spec(t.p, t.history, 2);
            &&& t.p == s.p.after_move(m)
            &&& t.history == s.history.push(entry_of(rules, s.p, m, reversible(s.p, m)))
            &&& t.selected == s.selected && t.moves == s.moves
            &&& t.mode == s.mode && t.human == s.human && t.simulations == s.simulations
            &&& !t.over ==> !stuck && !repeated
            &&& s.over || stuck || repeated ==> t.over
            &&& !repeated && stuck ==> t.ending == Ending::Checkmate && t.status
                == Status::Checkmate
            &&& repeated && result == RepetitionResult::Win ==> t.ending == Ending::EngineViolation
                && t.status == Status::Won
            &&& repeated && result == RepetitionResult::Loss ==> t.ending == Ending::EngineWins
                && t.status == Status::Lost
            &&& repeated && result == RepetitionResult::Draw ==> t.ending == Ending::Repetition
                && t.status == Status::Draw
            &&& !repeated && !stuck ==> t.over == s.over && t.ending == s.ending && t.status
                == Status::Engine
        }),
{
}

/// How a game at the board stands after a click that plays a move: it is the move of the
/// selected piece to the clicked square, nothing stays selected, and the game ends for the
/// player who repeats against the rules, for the engine that has no legal move or has to
/// give way itself, or in a draw; else it goes on.
pub proof fn law_how_the_players_move_ends_the_game<R: Rules>(
    rules: &R,
    s: SessionState,
    sq: int,
    k: int,
)
    requires
        s.selected is Some,
        0 <= k < s.moves.len(),
        s.moves[k].to_spec() == sq,
        forall|j: int| 0 <= j < k ==> (#[trigger] s.moves[j]).to_spec() != sq,
    ensures
        ({
            let t = s.clicked(rules, sq);
            let m = s.moves[k];
            let stuck = legal_moves_spec(rules, t.p).len() == 0;
            let repeated = t.history.len() >= 4 && rules.repetition_spec(t.p, t.history, 2)
                != RepetitionResult::Undecided;
            let result = rules.repetition_spec(t.p, t.history, 2);
            &&& t.p == s.p.after_move(m)
            &&& t.history == s.history.push(entry_of(rules, s.p, m, reversible(s.p, m)))
            &&& t.selected is None && t.moves.len() == 0
            &&& t.mode == s.mode && t.human == s.human && t.simulations == s.simulations
            &&& !t.over ==> !stuck && !repeated
            &&& s.over || stuck || repeated ==> t.over
            &&& !repeated && stuck ==> t.ending == Ending::Checkmate && t.status
                == Status::Checkmate
            &&& repeated && result == RepetitionResult::Win ==> t.ending == Ending::PlayerViolation
                && t.status == Status::Lost
            &&& repeated && result == RepetitionResult::Loss ==> t.ending
                == Ending::OpponentViolation && t.status == Status::Won
            &&& repeated && result == RepetitionResult::Draw ==> t.ending == Ending::Repetition
                && t.status == Status::Draw
            &&& !repeated && !stuck ==> t.over == s.over && t.ending == s.ending && t.status
                == Status::YourTurn
        }),
{
    lemma_first_to(s.moves, sq, k);
}

/// The first move to a square is found.
proof fn lemma_first_to(moves: Seq<Move>, sq: int, k: int)
    requires
        0 <= k < moves.len(),
        moves[k].to_spec() == sq,
        forall|j: int| 0 <= j < k ==> (#[trigger] moves[j]).to_spec() != sq,
    ensures
        first_to(moves, sq) == Some(moves[k]),
    decreases k,
{
    if k > 0 {
        let rest = moves.skip(1);
        assert(moves[0].to_spec() != sq);
        assert(rest[k - 1] == moves[k]);
        assert forall|j: int| 0 <= j < k - 1 implies (#[trigger] rest[j]).to_spec() != sq by {
            assert(rest[j] == moves[j + 1]);
        }
        lemma_first_to(rest, sq, k - 1);
    }
}

/// No move to a square is found where there is none.
proof fn lemma_none_to(moves: Seq<Move>, sq: int)
    requires
        forall|j: int| 0 <= j < moves.len() ==> (#[trigger] moves[j]).to_spec() != sq,
    ensures
        first_to(moves, sq) is None,
    decreases moves.len(),
{
    if moves.len() > 0 {
        let rest = moves.skip(1);
        assert(moves[0].to_spec() != sq);
        assert forall|j: int| 0 <= j < rest.len() implies (#[trigger] rest[j]).to_spec() != sq by {
            assert(rest[j] == moves[j + 1]);
        }
        lemma_none_to(rest, sq);
    }
}

/// A click that plays no move leaves the game as it is. On a piece of the player it selects
/// the piece and offers exactly its legal moves; elsewhere nothing stays selected.
pub proof fn law_a_click_without_a_move_selects<R: Rules>(rules: &R, s: SessionState, sq: int, m: Move)
    requires
        0 <= sq < 256,
        s.selected is Some ==> forall|j: int|
            0 <= j < s.moves.len() ==> (#[trigger] s.moves[j]).to_spec() != sq,
        s.selected is None ==> s.moves.len() == 0,
    ensures
        ({
            let t = s.clicked(rules, sq);
            let own = on_board(sq) && s.p.cells[sq] is Some && (s.p.cells[sq]->0).color == s.human;
            &&& t.p == s.p && t.history == s.history
            &&& t.over == s.over && t.ending == s.ending && t.status == s.status
            &&& t.mode == s.mode && t.human == s.human && t.simulations == s.simulations
            &&& own ==> t.selected == Some(sq as usize) && (t.moves.contains(m)
                <==> legal_moves_spec(rules, s.p).contains(m) && m.from_spec() == sq)
            &&& !own ==> t.selected is None && t.moves.len() == 0
        }),
{
    if s.selected is Some {
        lemma_none_to(s.moves, sq);
    }
    let all = legal_moves_spec(rules, s.p);
    let leaves = |x: Move| x.from_spec() == sq;
    let kept = moves_leaving(all, sq);
    if kept.contains(m) {
        all.lemma_filter_contains_rev(leaves, m);
        all.lemma_filter_pred(leaves, kept.index_of(m));
    }
    if all.contains(m) && m.from_spec() == sq {
        all.lemma_filter_contains(leaves, all.index_of(m));
    }
}

/// While a game at the board is not over, the side to move has a legal move: clicks and the
/// engine's moves keep it so.
pub proof fn law_a_game_that_goes_on_can_go_on<R: Rules>(rules: &R, s: SessionState, sq: int, m: Move)
    requires
        !s.over ==> legal_moves_spec(rules, s.p).len() > 0,
    ensures
        ({
            let clicked = s.clicked(rules, sq);
            let answered = (SessionState { status: Status::Engine, ..s }).played(
                rules,
                m,
            ).after_engine(rules);
            &&& !clicked.over ==> legal_moves_spec(rules, clicked.p).len() > 0
            &&& !answered.over ==> legal_moves_spec(rules, answered.p).len() > 0
        }),
{
}

/// A new game is the start position without a history or a selection, under the settings
/// that were chosen.
pub proof fn law_a_new_game_keeps_the_settings(s: SessionState, row: int, col: int)
    requires
        0 <= row <= 9,
        0 <= col <= 8,
    ensures
        ({
            let t = s.restarted();
            &&& t.p.cells[16 * row + col] == initial_piece(row, col)
            &&& t.p.side_to_move == Color::Red
            &&& t.history.len() == 0 && t.selected is None && t.moves.len() == 0
            &&& !t.over && t.ending == Ending::Plain && t.status == Status::Ready
            &&& t.mode == s.mode && t.human == s.human && t.simulations == s.simulations
        }),
{
    assert((16 * row + col) / 16 == row && (16 * row + col) % 16 == col);
}

/// Against a player the turns alternate with the moves; an engine that plays itself leaves
/// no turn to the player.
pub proof fn law_turns_alternate<R: Rules>(rules: &R, s: SessionState, m: Move)
    ensures
        s.mode == GameMode::EngineVsEngine ==> !s.human_turn() && !s.played(rules, m).human_turn(),
        s.mode == GameMode::EngineVsPlayer ==> s.human_turn() != s.played(rules, m).human_turn(),
        s.mode == GameMode::EngineVsPlayer && s.p.side_to_move == s.human ==> s.human_turn(),
{
    reveal(Position::after_move);
}

impl Session {
    pub fn new() -> (session: Session)
        ensures
            session@.p == initial_position(),
            session@.history.len() == 0,
            session@.selected is None,
            session@.moves.len() == 0,
            !session@.over,
            session@.ending == Ending::Plain,
            session@.status == Status::Ready,
            session@.mode == GameMode::EngineVsPlayer,
            session@.human == Color::Red,
            session@.simulations == 800,
            session@.sound(),
    {
        let mut board = Board::new();
        board.set_initial_position();
        Session {
            board,
            history: Vec::new(),
            selected_sq: None,
            legal_moves: Vec::new(),
            game_over: false,
            ending: Ending::Plain,
            status: Status::Ready,
            game_mode: GameMode::EngineVsPlayer,
            human_color: Color::Red,
            simulations: 800,
        }
    }

    /// Starts a new game.
    pub fn reset(&mut self)
        ensures
            final(self)@ == old(self)@.restarted(),
            final(self)@.sound(),
    {
        self.board.set_initial_position();
        self.history = Vec::new();
        self.selected_sq = None;
        self.legal_moves = Vec::new();
        self.game_over = false;
        self.ending = Ending::Plain;
        self.status = Status::Ready;
        assert(self@.history =~= Seq::<HistoryEntry>::empty());
        assert(self@.moves =~= Seq::<Move>::empty());
    }

    /// Starts a new game in another mode.
    pub fn set_mode(&mut self, game_mode: GameMode)
        ensures
            final(self)@ == (SessionState { mode: game_mode, ..old(self)@.restarted() }),
            final(self)@.sound(),
    {
        self.game_mode = game_mode;
        self.reset();
    }

    /// Starts a new game from the other side.
    pub fn set_side(&mut self, human_color: Color)
        ensures
            final(self)@ == (SessionState { human: human_color, ..old(self)@.restarted() }),
            final(self)@.sound(),
    {
        self.human_color = human_color;
        self.reset();
    }

    /// Fewer playouts for a move.
    pub fn fewer_simulations(&mut self)
        ensures
            final(self)@ == (SessionState {
                simulations: if old(self)@.simulations > MIN_SIMULATIONS {
                    (old(self)@.simulations - SIMULATION_STEP) as usize
                } else {
                    old(self)@.simulations
                },
                ..old(self)@
            }),
            final(self)@.simulations <= old(self)@.simulations,
            100 <= old(self)@.simulations <= 5000 && old(self)@.simulations % 100 == 0 ==> 100
                <= final(self)@.simulations <= 5000 && final(self)@.simulations % 100 == 0,
    {
        if self.simulations > MIN_SIMULATIONS {
            self.simulations = self.simulations - SIMULATION_STEP;
        }
    }

    /// More playouts for a move.
    pub fn more_simulations(&mut self)
        ensures
            final(self)@ == (SessionState {
                simulations: if old(self)@.simulations < MAX_SIMULATIONS {
                    (old(self)@.simulations + SIMULATION_STEP) as usize
                } else {
                    old(self)@.simulations
                },
                ..old(self)@
            }),
            final(self)@.simulations >= old(self)@.simulations,
            100 <= old(self)@.simulations <= 5000 && old(self)@.simulations % 100 == 0 ==> 100
                <= final(self)@.simulations <= 5000 && final(self)@.simulations % 100 == 0,
    {
        if self.simulations < MAX_SIMULATIONS {
            self.simulations = self.simulations + SIMULATION_STEP;
        }
    }

    pub fn is_human_turn(&self) -> (human: bool)
        ensures
            human == self@.human_turn(),
    {
        self.game_mode == GameMode::EngineVsPlayer && self.board.side_to_move == self.human_color
    }

    fn find_move_to(&self, sq: usize) -> (found: Option<Move>)
        ensures
            found == first_to(self@.moves, sq as int),
            found matches Some(m) ==> self@.moves.contains(m),
    {
        let mut i: usize = 0;
        assert(self@.moves.skip(0) =~= self@.moves);
        while i < self.legal_moves.len()
            invariant
                i <= self@.moves.len(),
                self@.moves == self.legal_moves@,
                first_to(self@.moves, sq as int) == first_to(self@.moves.skip(i as int), sq as int),
            decreases self@.moves.len() - i,
        {
            let m = self.legal_moves[i];
            let ghost rest = self@.moves.skip(i as int);
            assert(rest[0] == m);
            assert(rest.skip(1) =~= self@.moves.skip(i + 1));
            if m.to_sq() == sq {
                assert(self@.moves.contains(m));
                return Some(m);
            }
            i += 1;
        }
        None
    }

    fn select<R: Rules>(&mut self, rules: &R, sq: usize)
        requires
            old(self)@.sound(),
        ensures
            final(self)@ == old(self)@.with_selected(rules, sq as int),
            final(self)@.sound(),
    {
        let all = get_legal_moves(rules, &mut self.board);
        let ghost leaves = |m: Move| m.from_spec() == sq as int;
        let mut kept: Vec<Move> = Vec::new();
        let mut i: usize = 0;
        assert(all@.take(0).filter(leaves) =~= Seq::<Move>::empty()) by {
            reveal_with_fuel(Seq::filter, 1);
        }
        while i < all.len()
            invariant
                i <= all@.len(),
                leaves == (|m: Move| m.from_spec() == sq as int),
                kept@ == all@.take(i as int).filter(leaves),
            decreases all@.len() - i,
        {
            let m = all[i];
            proof {
                let next = all@.take(i + 1);
                assert(next.drop_last() =~= all@.take(i as int));
                assert(next.last() == m);
                reveal_with_fuel(Seq::filter, 1);
            }
            if m.from_sq() == sq {
                kept.push(m);
            }
            i += 1;
        }
        proof {
            assert(all@.take(i as int) =~= all@);
            self.board.lemma_cells_len();
            law_legal_moves_are_safe_steps(rules, self.board@);
            assert forall|k: int| 0 <= k < kept@.len() implies self.board@.is_step(
                #[trigger] kept@[k],
            ) by {
                assert(kept@.contains(kept@[k]));
                all@.lemma_filter_contains_rev(leaves, kept@[k]);
                let j = all@.index_of(kept@[k]);
                assert(self.board@.is_safe_step(all@[j]));
            }
        }
        self.selected_sq = Some(sq);
        self.legal_moves = kept;
    }

    /// Judges repetitions after a move, from the fourth move of the game on.
    fn verdict<R: Rules>(&self, rules: &R) -> (result: RepetitionResult)
        ensures
            result == self@.verdict(rules),
    {
        if self.history.len() >= 4 {
            rules.judge_repetition(&self.board, &self.history, 2)
        } else {
            RepetitionResult::Undecided
        }
    }

    fn end(&mut self, ending: Ending, status: Status)
        ensures
            final(self)@ == old(self)@.ended(ending, status),
    {
        self.game_over = true;
        self.ending = ending;
        self.status = status;
    }

    fn conclude_player_move<R: Rules>(&mut self, rules: &R)
        ensures
            final(self)@ == old(self)@.after_player(rules),
    {
        match self.verdict(rules) {
            RepetitionResult::Win => self.end(Ending::PlayerViolation, Status::Lost),
            RepetitionResult::Loss => self.end(Ending::OpponentViolation, Status::Won),
            RepetitionResult::Draw => self.end(Ending::Repetition, Status::Draw),
            RepetitionResult::Undecided => {
                let all = get_legal_moves(rules, &mut self.board);
                if all.len() == 0 {
                    self.end(Ending::Checkmate, Status::Checkmate);
                } else {
                    self.status = Status::YourTurn;
                }
            },
        }
    }

    /// A click at a drawn row and column. Outside the board nothing happens.
    pub fn click<R: Rules>(&mut self, rules: &R, d_row: isize, d_col: isize)
        requires
            old(self)@.sound(),
        ensures
            final(self)@ == (if 0 <= d_row < 10 && 0 <= d_col < 9 {
                old(self)@.clicked(rules, old(self)@.drawn_square(d_row as int, d_col as int))
            } else {
                old(self)@
            }),
            final(self)@.sound(),
            legal_moves_spec(rules, old(self)@.p).len() > 0 && !final(self)@.over
                ==> legal_moves_spec(rules, final(self)@.p).len() > 0,
    {
        if !(d_col >= 0 && d_col < 9 && d_row >= 0 && d_row < 10) {
            return;
        }
        let c = display_col(d_col as usize, self.human_color);
        let r = display_row(d_row as usize, self.human_color);
        let sq = Board::coord_to_square(r, c);
        if self.selected_sq.is_some() {
            if let Some(m) = self.find_move_to(sq) {
                proof {
                    let j = self@.moves.index_of(m);
                    assert(self@.p.is_step(self@.moves[j]));
                    self.board.lemma_cells_len();
                    self@.p.lemma_step_keeps(m);
                }
                self.selected_sq = None;
                self.legal_moves = Vec::new();
                assert(self@.moves =~= Seq::<Move>::empty());
                apply_move_to_game(rules, &mut self.board, m, &mut self.history);
                self.conclude_player_move(rules);
                return;
            }
        }
        let own = match self.board.piece_at(sq) {
            Some(piece) => piece.color == self.human_color,
            None => false,
        };
        if own {
            self.select(rules, sq);
        } else if self.selected_sq.is_some() {
            self.selected_sq = None;
            self.legal_moves = Vec::new();
            assert(self@.moves =~= Seq::<Move>::empty());
        }
    }

    /// Starts the engine's turn. Without a legal move the game is over; else the engine
    /// has to search.
    pub fn start_engine_turn<R: Rules>(&mut self, rules: &R) -> (searches: bool)
        ensures
            searches == (legal_moves_spec(rules, old(self)@.p).len() > 0),
            final(self)@ == (if searches {
                old(self)@
            } else {
                old(self)@.ended(Ending::Checkmate, Status::Checkmate)
            }),
    {
        let all_moves = get_legal_moves(rules, &mut self.board);
        if all_moves.len() == 0 {
            self.end(Ending::Checkmate, Status::Checkmate);
            false
        } else {
            true
        }
    }

    /// Plays the move that the engine has found.
    pub fn engine_move<R: Rules>(&mut self, rules: &R, best_move: Move)
        requires
            old(self)@.p.piece_at(best_move.from_spec()) is Some,
        ensures
            final(self)@ == (SessionState { status: Status::Engine, ..old(self)@ }).played(
                rules,
                best_move,
            ).after_engine(rules),
            old(self)@.moves.len() == 0 ==> final(self)@.sound(),
            !final(self)@.over ==> legal_moves_spec(rules, final(self)@.p).len() > 0,
    {
        self.status = Status::Engine;
        apply_move_to_game(rules, &mut self.board, best_move, &mut self.history);
        match self.verdict(rules) {
            RepetitionResult::Win => self.end(Ending::EngineViolation, Status::Won),
            RepetitionResult::Loss => self.end(Ending::EngineWins, Status::Lost),
            RepetitionResult::Draw => self.end(Ending::Repetition, Status::Draw),
            RepetitionResult::Undecided => {
                let all = get_legal_moves(rules, &mut self.board);
                if all.len() == 0 {
                    self.end(Ending::Checkmate, Status::Checkmate);
                }
            },
        }
    }
}

} // verus!
