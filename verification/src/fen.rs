//! Positions as text.
//!
//! A position is written row by row from the top, rows set apart by slashes: a letter
//! for each piece, upper case for red, and a number for each run of empty squares.
//! A second word tells the side to move.

use crate::board::{
    initial_piece, initial_position, square_at, Board, Color, Piece, PieceType, Position,
};
use crate::moves::{on_board, Move};
use crate::text::{
    append_all, chars_of, decimal, decimal_text, digit_char, digit_value, is_digit, is_space, is_text,
    joined, joined_upto, lacks, law_one_word, law_two_words, law_words_of_two_texts,
    no_space, split_words, string_of, texts, to_digit, words,
};
use vstd::prelude::*;

verus! {

// ---------------------------------------------------------------------------
// Letters
// ---------------------------------------------------------------------------
/// The kind of piece that a letter stands for.
pub open spec fn letter_kind(c: char) -> Option<PieceType> {
    if c == 'k' || c == 'K' {
        Some(PieceType::King)
    } else if c == 'a' || c == 'A' {
        Some(PieceType::Advisor)
    } else if c == 'b' || c == 'B' || c == 'e' || c == 'E' {
        Some(PieceType::Elephant)
    } else if c == 'n' || c == 'N' || c == 'h' || c == 'H' {
        Some(PieceType::Horse)
    } else if c == 'r' || c == 'R' {
        Some(PieceType::Rook)
    } else if c == 'c' || c == 'C' {
        Some(PieceType::Cannon)
    } else if c == 'p' || c == 'P' {
        Some(PieceType::Pawn)
    } else {
        None
    }
}

pub open spec fn is_upper(c: char) -> bool {
    65 <= c as u32 <= 90
}

/// The piece that a letter stands for.
pub open spec fn letter_piece(c: char) -> Option<Piece> {
    match letter_kind(c) {
        None => None,
        Some(piece_type) => Some(
            Piece {
                piece_type,
                color: if is_upper(c) {
                    Color::Red
                } else {
                    Color::Black
                },
            },
        ),
    }
}

/// Reads a piece off its letter.
pub fn piece_of_letter(c: char) -> (piece: Option<Piece>)
    ensures
        piece == letter_piece(c),
{
    let u = c as u32;
    let color = if 65 <= u && u <= 90 {
        Color::Red
    } else {
        Color::Black
    };
    let piece_type = if c == 'k' || c == 'K' {
        PieceType::King
    } else if c == 'a' || c == 'A' {
        PieceType::Advisor
    } else if c == 'b' || c == 'B' || c == 'e' || c == 'E' {
        PieceType::Elephant
    } else if c == 'n' || c == 'N' || c == 'h' || c == 'H' {
        PieceType::Horse
    } else if c == 'r' || c == 'R' {
        PieceType::Rook
    } else if c == 'c' || c == 'C' {
        PieceType::Cannon
    } else if c == 'p' || c == 'P' {
        PieceType::Pawn
    } else {
        return None;
    };
    Some(Piece::new(piece_type, color))
}

/// The letter of a piece.
pub open spec fn piece_letter(piece: Piece) -> char {
    match (piece.piece_type, piece.color) {
        (PieceType::King, Color::Red) => 'K',
        (PieceType::Advisor, Color::Red) => 'A',
        (PieceType::Elephant, Color::Red) => 'B',
        (PieceType::Horse, Color::Red) => 'N',
        (PieceType::Rook, Color::Red) => 'R',
        (PieceType::Cannon, Color::Red) => 'C',
        (PieceType::Pawn, Color::Red) => 'P',
        (PieceType::King, Color::Black) => 'k',
        (PieceType::Advisor, Color::Black) => 'a',
        (PieceType::Elephant, Color::Black) => 'b',
        (PieceType::Horse, Color::Black) => 'n',
        (PieceType::Rook, Color::Black) => 'r',
        (PieceType::Cannon, Color::Black) => 'c',
        (PieceType::Pawn, Color::Black) => 'p',
    }
}

/// Writes a piece as a letter.
pub fn letter_of_piece(piece: Piece) -> (c: char)
    ensures
        c == piece_letter(piece),
{
    match (piece.piece_type, piece.color) {
        (PieceType::King, Color::Red) => 'K',
        (PieceType::Advisor, Color::Red) => 'A',
        (PieceType::Elephant, Color::Red) => 'B',
        (PieceType::Horse, Color::Red) => 'N',
        (PieceType::Rook, Color::Red) => 'R',
        (PieceType::Cannon, Color::Red) => 'C',
        (PieceType::Pawn, Color::Red) => 'P',
        (PieceType::King, Color::Black) => 'k',
        (PieceType::Advisor, Color::Black) => 'a',
        (PieceType::Elephant, Color::Black) => 'b',
        (PieceType::Horse, Color::Black) => 'n',
        (PieceType::Rook, Color::Black) => 'r',
        (PieceType::Cannon, Color::Black) => 'c',
        (PieceType::Pawn, Color::Black) => 'p',
    }
}

// ---------------------------------------------------------------------------
// Reading
// ---------------------------------------------------------------------------
/// A position being read, and where the next piece goes.
pub struct Reading {
    pub p: Position,
    pub row: int,
    pub col: int,
}

/// The board with nothing on it.
pub open spec fn empty_position() -> Position {
    Position {
        cells: Seq::new(256, |i: int| None::<Piece>),
        side_to_move: Color::Red,
        red_king_sq: 0,
        black_king_sq: 0,
    }
}

/// Reading one character: a slash starts the next row, a digit skips squares, a
/// letter puts a piece down (off the board it is lost, but a king's place is noted);
/// anything else is passed over.
pub open spec fn read_char(st: Reading, c: char) -> Reading {
    if c == '/' {
        Reading { row: st.row + 1, col: 0, ..st }
    } else if is_digit(c) {
        Reading { col: st.col + digit_value(c), ..st }
    } else {
        match letter_piece(c) {
            None => st,
            Some(piece) => {
                let sq = square_at(st.row, st.col);
                let placed = st.p.with_piece(sq, Some(piece));
                let king = piece.piece_type == PieceType::King;
                Reading {
                    p: Position {
                        red_king_sq: if king && piece.color == Color::Red {
                            sq as usize
                        } else {
                            placed.red_king_sq
                        },
                        black_king_sq: if king && piece.color == Color::Black {
                            sq as usize
                        } else {
                            placed.black_king_sq
                        },
                        ..placed
                    },
                    row: st.row,
                    col: st.col + 1,
                }
            },
        }
    }
}

/// Reading a text.
pub open spec fn read_text(st: Reading, s: Seq<char>) -> Reading
    decreases s.len(),
{
    if s.len() == 0 {
        st
    } else {
        read_char(read_text(st, s.drop_last()), s.last())
    }
}

pub open spec fn read_start() -> Reading {
    Reading { p: empty_position(), row: 0, col: 0 }
}

/// The side that a word tells: black for `b` or `B`, else red.
pub open spec fn side_of(word: Seq<char>) -> Color {
    if word == "b"@ || word == "B"@ {
        Color::Black
    } else {
        Color::Red
    }
}

/// The position that a board text and perhaps a word for the side describe.
pub open spec fn described(board: Seq<char>, side: Option<Seq<char>>) -> Position {
    let placed = read_text(read_start(), board).p;
    match side {
        None => placed,
        Some(word) => Position { side_to_move: side_of(word), ..placed },
    }
}

/// The position that a text describes.
pub open spec fn fen_position(fen: Seq<char>) -> Position {
    let parts = words(fen);
    if parts.len() == 0 {
        empty_position()
    } else {
        described(
            parts[0],
            if parts.len() > 1 {
                Some(parts[1])
            } else {
                None
            },
        )
    }
}

/// Reads a board text and perhaps a word for the side.
pub fn read_parts(board_text: &Vec<char>, side: Option<&Vec<char>>) -> (board: Board)
    ensures
        board@ == described(
            board_text@,
            match side {
                Some(word) => Some(word@),
                None => None,
            },
        ),
{
    let mut board = Board::new();
    let mut row: u128 = 0;
    let mut col: u128 = 0;
    let mut i: usize = 0;
    assert(board_text@.take(0) =~= Seq::<char>::empty());
    assert(board@.cells =~= empty_position().cells);
    while i < board_text.len()
        invariant
            i <= board_text@.len(),
            row <= i,
            col <= 9 * i,
            (Reading { p: board@, row: row as int, col: col as int }) == read_text(
                read_start(),
                board_text@.take(i as int),
            ),
        decreases board_text@.len() - i,
    {
        let c = board_text[i];
        proof {
            let next = board_text@.take(i + 1);
            assert(next.drop_last() =~= board_text@.take(i as int));
            assert(next.last() == c);
        }
        if c == '/' {
            row += 1;
            col = 0;
        } else if let Some(d) = to_digit(c) {
            col += d as u128;
        } else if let Some(piece) = piece_of_letter(c) {
            let index: u128 = row * 16 + col;
            let sq = index as usize;
            if index < 256 {
                board.set_piece(sq, Some(piece));
            }
            if piece.piece_type == PieceType::King {
                if piece.color == Color::Red {
                    board.red_king_sq = sq;
                } else {
                    board.black_king_sq = sq;
                }
            }
            col += 1;
        }
        i += 1;
    }
    assert(board_text@.take(i as int) =~= board_text@);
    if let Some(word) = side {
        board.side_to_move = if is_text(word, "b") || is_text(word, "B") {
            Color::Black
        } else {
            Color::Red
        };
    }
    board
}

/// Reads a position.
pub fn parse_fen(board: &mut Board, fen: &str)
    ensures
        final(board)@ == fen_position(fen@),
{
    let chars = chars_of(fen);
    let parts = split_words(&chars);
    proof {
        assert(parts@.len() > 0 ==> texts(parts@)[0] == parts@[0]@);
        assert(parts@.len() > 1 ==> texts(parts@)[1] == parts@[1]@);
    }
    if parts.len() == 0 {
        *board = Board::new();
        assert(board@.cells =~= empty_position().cells);
        return;
    }
    *board = if parts.len() > 1 {
        read_parts(&parts[0], Some(&parts[1]))
    } else {
        read_parts(&parts[0], None)
    };
}

/// Both kings stand where they are noted.
pub open spec fn has_kings(p: Position) -> bool {
    &&& p.piece_at(p.red_king_sq as int) == Some(
        Piece { piece_type: PieceType::King, color: Color::Red },
    )
    &&& p.piece_at(p.black_king_sq as int) == Some(
        Piece { piece_type: PieceType::King, color: Color::Black },
    )
}

/// A text describes no position that can be played: a king is missing.
#[derive(Copy, Clone, Debug, PartialEq, Eq, Structural)]
pub struct FenError {}

impl Board {
    /// Reads a position that can be played.
    pub fn from_fen(fen: &str) -> (board: Result<Board, FenError>)
        ensures
            match board {
                Ok(b) => b@ == fen_position(fen@) && has_kings(b@),
                Err(_) => !has_kings(fen_position(fen@)),
            },
    {
        let mut board = Board::new();
        parse_fen(&mut board, fen);
        let red_king = board.piece_at(board.red_king_sq) == Some(
            Piece::new(PieceType::King, Color::Red),
        );
        let black_king = board.piece_at(board.black_king_sq) == Some(
            Piece::new(PieceType::King, Color::Black),
        );
        if red_king && black_king {
            Ok(board)
        } else {
            Err(FenError {  })
        }
    }
}

// ---------------------------------------------------------------------------
// Rows
// ---------------------------------------------------------------------------
/// `t` and the number of the empty squares behind it, if there are any.
pub open spec fn with_count(t: Seq<char>, empty: nat) -> Seq<char> {
    if empty > 0 {
        t + decimal(empty)
    } else {
        t
    }
}

/// The first `n` characters of a spelled-out row, shortened, and the empty squares
/// not yet written.
pub open spec fn shortened_upto(row: Seq<char>, n: int) -> (Seq<char>, nat)
    decreases n,
{
    if n <= 0 {
        (Seq::empty(), 0)
    } else {
        let (t, empty) = shortened_upto(row, n - 1);
        if row[n - 1] == '1' {
            (t, empty + 1)
        } else {
            (with_count(t, empty).push(row[n - 1]), 0)
        }
    }
}

/// A spelled-out row with each run of ones replaced by its length.
pub open spec fn shortened(row: Seq<char>) -> Seq<char> {
    let (t, empty) = shortened_upto(row, row.len() as int);
    with_count(t, empty)
}

/// Shortens a spelled-out row.
pub fn shorten(row: &Vec<char>) -> (out: Vec<char>)
    ensures
        out@ == shortened(row@),
{
    let mut out: Vec<char> = Vec::new();
    let mut empty_count: usize = 0;
    let mut i: usize = 0;
    while i < row.len()
        invariant
            i <= row@.len(),
            empty_count <= i,
            (out@, empty_count as nat) == shortened_upto(row@, i as int),
        decreases row@.len() - i,
    {
        let c = row[i];
        if c == '1' {
            empty_count += 1;
        } else {
            if empty_count > 0 {
                append_all(&mut out, &decimal_text(empty_count));
                empty_count = 0;
            }
            out.push(c);
        }
        i += 1;
    }
    if empty_count > 0 {
        append_all(&mut out, &decimal_text(empty_count));
    }
    out
}

/// That many ones.
pub open spec fn ones(k: int) -> Seq<char> {
    Seq::new(k as nat, |i: int| '1')
}

/// What a character of a row spells out: a digit so many ones, else itself.
pub open spec fn spelled_char(c: char) -> Seq<char> {
    if is_digit(c) {
        ones(digit_value(c))
    } else {
        seq![c]
    }
}

/// A row with each digit spelled out.
pub open spec fn spelled(row: Seq<char>) -> Seq<char>
    decreases row.len(),
{
    if row.len() == 0 {
        row
    } else {
        spelled(row.drop_last()) + spelled_char(row.last())
    }
}

/// Spells out a row.
pub fn spell(row: &Vec<char>) -> (out: Vec<char>)
    ensures
        out@ == spelled(row@),
{
    let mut out: Vec<char> = Vec::new();
    let mut i: usize = 0;
    assert(row@.take(0) =~= Seq::<char>::empty());
    while i < row.len()
        invariant
            i <= row@.len(),
            out@ == spelled(row@.take(i as int)),
        decreases row@.len() - i,
    {
        let c = row[i];
        let ghost before = out@;
        proof {
            let next = row@.take(i + 1);
            assert(next.drop_last() =~= row@.take(i as int));
            assert(next.last() == c);
        }
        if let Some(d) = to_digit(c) {
            let mut k: u8 = 0;
            assert(before + ones(0) =~= before);
            while k < d
                invariant
                    k <= d,
                    out@ == before + ones(k as int),
                decreases d - k,
            {
                out.push('1');
                k += 1;
                assert(out@ =~= before + ones(k as int));
            }
        } else {
            out.push(c);
            assert(out@ =~= before + seq![c]);
        }
        i += 1;
    }
    assert(row@.take(i as int) =~= row@);
    out
}

/// A spelled-out row: it holds no digit but ones.
pub open spec fn is_spelled(row: Seq<char>) -> bool {
    forall|k: int| 0 <= k < row.len() ==> #[trigger] row[k] == '1' || !is_digit(row[k])
}

proof fn lemma_spelled_push(row: Seq<char>, c: char)
    ensures
        spelled(row.push(c)) == spelled(row) + spelled_char(c),
{
    assert(row.push(c).drop_last() =~= row);
}

proof fn lemma_spelled_count(t: Seq<char>, empty: nat)
    requires
        empty <= 9,
    ensures
        spelled(with_count(t, empty)) == spelled(t) + ones(empty as int),
{
    if empty > 0 {
        assert(t + decimal(empty) =~= t.push(digit_char(empty as int)));
        lemma_spelled_push(t, digit_char(empty as int));
    } else {
        assert(spelled(t) + ones(0) =~= spelled(t));
    }
}

proof fn lemma_spelled_shortened(row: Seq<char>, n: int)
    requires
        is_spelled(row),
        0 <= n <= row.len() <= 9,
    ensures
        ({
            let (t, empty) = shortened_upto(row, n);
            &&& empty <= n
            &&& spelled(t) + ones(empty as int) == row.take(n)
        }),
    decreases n,
{
    if n == 0 {
        assert(Seq::<char>::empty() + ones(0) =~= row.take(0));
    } else {
        lemma_spelled_shortened(row, n - 1);
        let (t, empty) = shortened_upto(row, n - 1);
        let c = row[n - 1];
        assert(row.take(n) =~= row.take(n - 1).push(c));
        if c == '1' {
            assert(spelled(t) + ones((empty + 1) as int) =~= (spelled(t) + ones(empty as int)).push('1'));
        } else {
            lemma_spelled_count(t, empty);
            lemma_spelled_push(with_count(t, empty), c);
            assert(spelled(with_count(t, empty)) + seq![c] + ones(0) =~= spelled(
                with_count(t, empty),
            ).push(c));
        }
    }
}

/// Spelling out a shortened row gives it back, for rows of up to nine squares.
pub proof fn law_spelling_undoes_shortening(row: Seq<char>)
    requires
        is_spelled(row),
        row.len() <= 9,
    ensures
        spelled(shortened(row)) == row,
{
    lemma_spelled_shortened(row, row.len() as int);
    let (t, empty) = shortened_upto(row, row.len() as int);
    lemma_spelled_count(t, empty);
    assert(row.take(row.len() as int) =~= row);
}

// ---------------------------------------------------------------------------
// Writing
// ---------------------------------------------------------------------------
/// The character of a square in a spelled-out row.
pub open spec fn cell_char(piece: Option<Piece>) -> char {
    match piece {
        Some(piece) => piece_letter(piece),
        None => '1',
    }
}

/// A row of the board, spelled out.
pub open spec fn row_cells(p: Position, row: int) -> Seq<char> {
    Seq::new(9, |col: int| cell_char(p.piece_at(square_at(row, col))))
}

/// The rows of a position as they are written.
pub open spec fn rows_text(p: Position) -> Seq<Seq<char>> {
    Seq::new(10, |row: int| shortened(row_cells(p, row)))
}

pub open spec fn side_char(side: Color) -> char {
    match side {
        Color::Red => 'w',
        Color::Black => 'b',
    }
}

/// A position as it is written.
pub open spec fn fen_text(p: Position) -> Seq<char> {
    joined(rows_text(p), '/').push(' ') + seq![side_char(p.side_to_move)]
}

impl Board {
    /// Writes a position.
    pub fn to_fen(&self) -> (fen: String)
        ensures
            fen@ == fen_text(self@),
    {
        let mut out: Vec<char> = Vec::new();
        let ghost rows = rows_text(self@);
        let mut row: usize = 0;
        while row < 10
            invariant
                row <= 10,
                rows == rows_text(self@),
                out@ == joined_upto(rows, '/', row as int),
            decreases 10 - row,
        {
            let mut cells: Vec<char> = Vec::new();
            let mut col: usize = 0;
            while col < 9
                invariant
                    col <= 9,
                    row < 10,
                    cells@ == row_cells(self@, row as int).take(col as int),
                decreases 9 - col,
            {
                let sq = Board::coord_to_square(row, col);
                let c = match self.piece_at(sq) {
                    Some(piece) => letter_of_piece(piece),
                    None => '1',
                };
                assert(c == row_cells(self@, row as int)[col as int]);
                cells.push(c);
                col += 1;
                assert(cells@ =~= row_cells(self@, row as int).take(col as int));
            }
            assert(cells@ =~= row_cells(self@, row as int));
            let text = shorten(&cells);
            if row > 0 {
                out.push('/');
            }
            let ghost before = out@;
            append_all(&mut out, &text);
            assert(text@ == rows[row as int]);
            assert(row == 0 ==> before + text@ =~= text@);
            row += 1;
        }
        out.push(' ');
        out.push(
            match self.side_to_move {
                Color::Red => 'w',
                Color::Black => 'b',
            },
        );
        assert(out@ =~= fen_text(self@));
        string_of(&out)
    }
}

/// Nothing stands off the board, and each side has one king, where it is noted.
pub open spec fn tidy(p: Position) -> bool {
    &&& p.cells.len() == 256
    &&& forall|sq: int| 0 <= sq < 256 && !on_board(sq) ==> #[trigger] p.cells[sq] is None
    &&& on_board(p.red_king_sq as int)
    &&& on_board(p.black_king_sq as int)
    &&& forall|sq: int|
        on_board(sq) ==> {
            &&& #[trigger] p.cells[sq] == Some(
                Piece { piece_type: PieceType::King, color: Color::Red },
            ) <==> sq == p.red_king_sq
            &&& p.cells[sq] == Some(Piece { piece_type: PieceType::King, color: Color::Black })
                <==> sq == p.black_king_sq
        }
}

/// The square comes before the one at `row` and `col`.
spec fn before(sq: int, row: int, col: int) -> bool {
    sq / 16 < row || (sq / 16 == row && sq % 16 < col)
}

/// A row of nine squares, spelled out: each is empty or holds a piece.
pub open spec fn is_row_cells(cells: Seq<char>) -> bool {
    &&& cells.len() == 9
    &&& forall|k: int|
        0 <= k < cells.len() ==> #[trigger] cells[k] == '1' || letter_piece(cells[k]) is Some
}

/// A board of ten rows, spelled out.
pub open spec fn is_board_cells(cells: Seq<Seq<char>>) -> bool {
    &&& cells.len() == 10
    &&& forall|row: int| 0 <= row < 10 ==> is_row_cells(#[trigger] cells[row])
}

/// The rows as they are written.
pub open spec fn written_rows(cells: Seq<Seq<char>>) -> Seq<Seq<char>> {
    Seq::new(cells.len(), |row: int| shortened(cells[row]))
}

/// The piece that a spelled-out board has on a square.
pub open spec fn cell_piece(cells: Seq<Seq<char>>, sq: int) -> Option<Piece> {
    letter_piece(cells[sq / 16][sq % 16])
}

/// The king of that colour on the last square before `row` and `col` is noted, if there is
/// any.
spec fn noted(cells: Seq<Seq<char>>, color: Color, row: int, col: int, noted_sq: int) -> bool {
    let king = Some(Piece { piece_type: PieceType::King, color });
    &&& noted_sq == 0 || (on_board(noted_sq) && before(noted_sq, row, col) && cell_piece(
        cells,
        noted_sq,
    ) == king)
    &&& forall|sq: int|
        on_board(sq) && before(sq, row, col) && #[trigger] cell_piece(cells, sq) == king ==> sq
            <= noted_sq
}

/// The reading has come to `row` and `col` of a board.
spec fn has_read(cells: Seq<Seq<char>>, st: Reading, row: int, col: int) -> bool {
    &&& st.row == row
    &&& st.col == col
    &&& st.p.side_to_move == Color::Red
    &&& st.p.cells.len() == 256
    &&& forall|sq: int|
        0 <= sq < 256 ==> #[trigger] st.p.cells[sq] == (if on_board(sq) && before(sq, row, col) {
            cell_piece(cells, sq)
        } else {
            None
        })
    &&& noted(cells, Color::Red, row, col, st.p.red_king_sq as int)
    &&& noted(cells, Color::Black, row, col, st.p.black_king_sq as int)
}

proof fn lemma_read_push(st: Reading, s: Seq<char>, c: char)
    ensures
        read_text(st, s.push(c)) == read_char(read_text(st, s), c),
{
    assert(s.push(c).drop_last() =~= s);
}

proof fn lemma_read_concat(st: Reading, a: Seq<char>, b: Seq<char>)
    ensures
        read_text(st, a + b) == read_text(read_text(st, a), b),
    decreases b.len(),
{
    if b.len() == 0 {
        assert(a + b =~= a);
    } else {
        lemma_read_concat(st, a, b.drop_last());
        assert((a + b).drop_last() =~= a + b.drop_last());
    }
}

/// Reading a piece's letter.
proof fn lemma_read_piece(cells: Seq<Seq<char>>, st: Reading, row: int, col: int)
    requires
        has_read(cells, st, row, col),
        0 <= row < 10,
        0 <= col < 9,
        letter_piece(cells[row][col]) is Some,
    ensures
        has_read(cells, read_char(st, cells[row][col]), row, col + 1),
{
    let sq = square_at(row, col);
    let c = cells[row][col];
    let piece = letter_piece(c)->0;
    let next = read_char(st, c);
    assert(c != '/' && !is_digit(c));
    assert(on_board(sq));
    assert(sq / 16 == row && sq % 16 == col);
    assert(cell_piece(cells, sq) == Some(piece));
    assert forall|k: int| on_board(k) implies (#[trigger] before(k, row, col + 1) <==> before(
        k,
        row,
        col,
    ) || k == sq) by {
        assert(k == square_at(k / 16, k % 16));
    }
    assert forall|k: int| on_board(k) && before(k, row, col) implies k < sq by {}
    assert forall|k: int| 0 <= k < 256 implies #[trigger] next.p.cells[k] == (if on_board(k)
        && before(k, row, col + 1) {
        cell_piece(cells, k)
    } else {
        None
    }) by {
        if on_board(k) {
            assert(before(k, row, col + 1) <==> before(k, row, col) || k == sq);
        }
    }
}

/// Reading a number of empty squares.
proof fn lemma_read_empty(cells: Seq<Seq<char>>, st: Reading, row: int, col: int, empty: int)
    requires
        has_read(cells, st, row, col),
        0 <= row < 10,
        0 <= col,
        1 <= empty,
        col + empty <= 9,
        forall|k: int| col <= k < col + empty ==> #[trigger] cells[row][k] == '1',
    ensures
        has_read(cells, read_char(st, digit_char(empty)), row, col + empty),
{
    let next = read_char(st, digit_char(empty));
    assert(next.col == col + empty);
    assert forall|sq: int|
        on_board(sq) && before(sq, row, col + empty) && !before(
            sq,
            row,
            col,
        ) implies #[trigger] cell_piece(cells, sq) is None by {
        assert(sq / 16 == row);
        assert(cells[row][sq % 16] == '1');
    }
    assert forall|sq: int| before(sq, row, col) implies #[trigger] before(sq, row, col + empty) by {}
}

/// Reading the first `n` squares of a row.
proof fn lemma_read_row(cells: Seq<Seq<char>>, st: Reading, row: int, n: int)
    requires
        is_board_cells(cells),
        has_read(cells, st, row, 0),
        0 <= row < 10,
        0 <= n <= 9,
    ensures
        ({
            let (t, empty) = shortened_upto(cells[row], n);
            &&& empty <= n
            &&& has_read(cells, read_text(st, t), row, n - empty)
            &&& forall|k: int| n - empty <= k < n ==> #[trigger] cells[row][k] == '1'
        }),
    decreases n,
{
    if n > 0 {
        lemma_read_row(cells, st, row, n - 1);
        let (t, empty) = shortened_upto(cells[row], n - 1);
        let c = cells[row][n - 1];
        assert(is_row_cells(cells[row]));
        if c != '1' {
            lemma_read_count(cells, st, row, n - 1);
            let full = with_count(t, empty);
            lemma_read_push(st, full, c);
            lemma_read_piece(cells, read_text(st, full), row, n - 1);
        }
    }
}

/// Reading the squares of a row with the number of empty ones written out.
proof fn lemma_read_count(cells: Seq<Seq<char>>, st: Reading, row: int, n: int)
    requires
        0 <= row < 10,
        0 <= n <= 9,
        ({
            let (t, empty) = shortened_upto(cells[row], n);
            &&& empty <= n
            &&& has_read(cells, read_text(st, t), row, n - empty)
            &&& forall|k: int| n - empty <= k < n ==> #[trigger] cells[row][k] == '1'
        }),
    ensures
        ({
            let (t, empty) = shortened_upto(cells[row], n);
            has_read(cells, read_text(st, with_count(t, empty)), row, n)
        }),
{
    let (t, empty) = shortened_upto(cells[row], n);
    if empty > 0 {
        assert(t + decimal(empty) =~= t.push(digit_char(empty as int)));
        lemma_read_push(st, t, digit_char(empty as int));
        lemma_read_empty(cells, read_text(st, t), row, n - empty, empty as int);
    }
}

/// Reading the first `n` rows.
proof fn lemma_read_rows(cells: Seq<Seq<char>>, n: int)
    requires
        is_board_cells(cells),
        1 <= n <= 10,
    ensures
        has_read(cells, read_text(read_start(), joined_upto(written_rows(cells), '/', n)), n - 1, 9),
    decreases n,
{
    let rows = written_rows(cells);
    let start = read_start();
    if n == 1 {
        assert(has_read(cells, start, 0, 0));
        assert(is_row_cells(cells[0]));
        lemma_read_row(cells, start, 0, 9);
        lemma_read_count(cells, start, 0, 9);
    } else {
        lemma_read_rows(cells, n - 1);
        let text = joined_upto(rows, '/', n - 1);
        let st = read_text(start, text);
        lemma_read_push(start, text, '/');
        let next = read_char(st, '/');
        assert(has_read(cells, next, n - 1, 0)) by {
            assert forall|sq: int| on_board(sq) implies (before(sq, n - 1, 0) <==> #[trigger] before(
                sq,
                n - 2,
                9,
            )) by {}
        }
        assert(is_row_cells(cells[n - 1]));
        lemma_read_row(cells, next, n - 1, 9);
        lemma_read_count(cells, next, n - 1, 9);
        lemma_read_concat(start, text.push('/'), rows[n - 1]);
    }
}

/// A written row holds no white space and no slash.
proof fn lemma_row_no_space(cells: Seq<char>, n: int)
    requires
        is_row_cells(cells),
        0 <= n <= 9,
    ensures
        ({
            let (t, empty) = shortened_upto(cells, n);
            &&& empty <= n
            &&& no_space(t)
            &&& no_space(with_count(t, empty))
            &&& lacks(t, '/')
            &&& lacks(with_count(t, empty), '/')
            &&& n > 0 ==> with_count(t, empty).len() > 0
        }),
    decreases n,
{
    let (t, empty) = shortened_upto(cells, n);
    if n > 0 {
        lemma_row_no_space(cells, n - 1);
        let c = cells[n - 1];
        assert(c == '1' || letter_piece(c) is Some);
        assert(c != '/' && !is_space(c));
    }
    if empty > 0 {
        assert(t + decimal(empty) =~= t.push(digit_char(empty as int)));
    }
}

/// The text of a board holds no white space, and its rows no slash.
pub proof fn lemma_rows_no_space(cells: Seq<Seq<char>>, n: int)
    requires
        is_board_cells(cells),
        1 <= n <= 10,
    ensures
        no_space(joined_upto(written_rows(cells), '/', n)),
        joined_upto(written_rows(cells), '/', n).len() > 0,
        forall|i: int| 0 <= i < n ==> lacks(#[trigger] written_rows(cells)[i], '/'),
    decreases n,
{
    assert(is_row_cells(cells[n - 1]));
    lemma_row_no_space(cells[n - 1], 9);
    let row = written_rows(cells)[n - 1];
    if n > 1 {
        lemma_rows_no_space(cells, n - 1);
    }
}

/// A board as it is written, and behind a space whatever follows.
pub open spec fn board_text(cells: Seq<Seq<char>>, rest: Seq<char>) -> Seq<char> {
    joined(written_rows(cells), '/').push(' ') + rest
}

/// A written board reads as it is spelled out, and what follows tells the side.
pub proof fn law_a_written_board_is_read(cells: Seq<Seq<char>>, rest: Seq<char>)
    requires
        is_board_cells(cells),
    ensures
        ({
            let p = fen_position(board_text(cells, rest));
            &&& p.cells.len() == 256
            &&& forall|sq: int|
                0 <= sq < 256 ==> #[trigger] p.cells[sq] == (if on_board(sq) {
                    cell_piece(cells, sq)
                } else {
                    None
                })
            &&& p.side_to_move == (if words(rest).len() > 0 {
                side_of(words(rest)[0])
            } else {
                Color::Red
            })
        }),
{
    lemma_board_is_read(cells, rest);
    assert forall|sq: int| on_board(sq) implies #[trigger] before(sq, 9, 9) by {}
}

/// What is read of a written board.
proof fn lemma_board_is_read(cells: Seq<Seq<char>>, rest: Seq<char>)
    requires
        is_board_cells(cells),
    ensures
        ({
            let board = joined(written_rows(cells), '/');
            let st = read_text(read_start(), board);
            &&& words(board_text(cells, rest)) == seq![board] + words(rest)
            &&& has_read(cells, st, 9, 9)
            &&& fen_position(board_text(cells, rest)) == (Position {
                side_to_move: if words(rest).len() > 0 {
                    side_of(words(rest)[0])
                } else {
                    Color::Red
                },
                ..st.p
            })
        }),
{
    let board = joined(written_rows(cells), '/');
    lemma_rows_no_space(cells, 10);
    law_one_word(board);
    law_words_of_two_texts(board, rest);
    lemma_read_rows(cells, 10);
}

/// The squares of a position, spelled out.
pub open spec fn position_cells(p: Position) -> Seq<Seq<char>> {
    Seq::new(10, |row: int| row_cells(p, row))
}

/// The squares of a position are a board, and are written as the position is.
pub proof fn lemma_position_cells(p: Position)
    ensures
        is_board_cells(position_cells(p)),
        written_rows(position_cells(p)) == rows_text(p),
        forall|sq: int| on_board(sq) ==> #[trigger] cell_piece(position_cells(p), sq) == p.piece_at(sq),
{
    let cells = position_cells(p);
    assert forall|row: int| 0 <= row < 10 implies is_row_cells(#[trigger] cells[row]) by {
        assert forall|k: int| 0 <= k < 9 implies #[trigger] cells[row][k] == '1' || letter_piece(
            cells[row][k],
        ) is Some by {
            assert(cells[row][k] == cell_char(p.piece_at(square_at(row, k))));
        }
    }
    assert(written_rows(cells) =~= rows_text(p));
    assert forall|sq: int| on_board(sq) implies #[trigger] cell_piece(cells, sq) == p.piece_at(sq) by {
        let row = sq / 16;
        let col = sq % 16;
        assert(square_at(row, col) == sq);
        assert(cells[row][col] == cell_char(p.piece_at(sq)));
        if p.piece_at(sq) is Some {
            assert(letter_piece(piece_letter(p.piece_at(sq)->0)) == p.piece_at(sq));
        }
    }
}

/// Reading a written position gives it back.
pub proof fn law_reading_undoes_writing(p: Position)
    requires
        tidy(p),
    ensures
        fen_position(fen_text(p)) == p,
{
    let cells = position_cells(p);
    let side = seq![side_char(p.side_to_move)];
    lemma_position_cells(p);
    lemma_board_is_read(cells, side);
    law_one_word(side);
    reveal_strlit("b");
    reveal_strlit("B");
    assert(side_of(side) == p.side_to_move) by {
        assert("b"@ =~= seq!['b']);
        assert("B"@ =~= seq!['B']);
        assert(side[0] != 'B');
        if p.side_to_move == Color::Red {
            assert(side[0] == 'w');
            assert("b"@[0] == 'b');
            assert("B"@[0] == 'B');
        }
    }
    let read = fen_position(fen_text(p));
    assert(fen_text(p) == board_text(cells, side));
    assert(read.cells =~= p.cells) by {
        assert forall|sq: int| 0 <= sq < 256 implies #[trigger] read.cells[sq] == p.cells[sq] by {
            assert(on_board(sq) ==> before(sq, 9, 9));
            if on_board(sq) {
                assert(cell_piece(cells, sq) == p.piece_at(sq));
            }
        }
    }
    let red = p.red_king_sq as int;
    let black = p.black_king_sq as int;
    assert(before(red, 9, 9) && before(black, 9, 9));
    assert(cell_piece(cells, red) == p.cells[red]);
    assert(cell_piece(cells, black) == p.cells[black]);
    let noted_red = read.red_king_sq as int;
    let noted_black = read.black_king_sq as int;
    if noted_red != 0 {
        assert(cell_piece(cells, noted_red) == p.cells[noted_red]);
    }
    if noted_black != 0 {
        assert(cell_piece(cells, noted_black) == p.cells[noted_black]);
    }
}

/// The start of a game is tidy.
pub proof fn law_the_start_is_tidy()
    ensures
        tidy(initial_position()),
{
    let p = initial_position();
    assert forall|sq: int| on_board(sq) implies {
        &&& #[trigger] p.cells[sq] == Some(
            Piece { piece_type: PieceType::King, color: Color::Red },
        ) <==> sq == p.red_king_sq
        &&& p.cells[sq] == Some(Piece { piece_type: PieceType::King, color: Color::Black }) <==> sq
            == p.black_king_sq
    } by {
        assert(sq == square_at(sq / 16, sq % 16));
    }
}

/// The text alone decides what is read: nothing of an earlier board is left, black is to
/// move exactly if the second word is `b` or `B`, and no word at all gives the empty board.
pub proof fn law_the_text_alone_decides(fen: Seq<char>, b1: Position, b2: Position)
    requires
        b1 == fen_position(fen),
        b2 == fen_position(fen),
    ensures
        b1 == b2,
        b1.side_to_move == Color::Black <==> words(fen).len() > 1 && (words(fen)[1] == "b"@ || words(
            fen,
        )[1] == "B"@),
        words(fen).len() == 0 ==> b1 == empty_position(),
{
    if words(fen).len() > 0 {
        lemma_side_stays(words(fen)[0]);
    }
}

/// Reading a board text does not touch the side to move.
proof fn lemma_side_stays(s: Seq<char>)
    ensures
        read_text(read_start(), s).p.side_to_move == Color::Red,
    decreases s.len(),
{
    if s.len() > 0 {
        lemma_side_stays(s.drop_last());
    }
}

/// Only the first two words of a text are read.
pub proof fn law_further_words_are_not_read(fen: Seq<char>, rest: Seq<char>)
    requires
        words(fen).len() >= 2,
    ensures
        fen_position(fen.push(' ') + rest) == fen_position(fen),
{
    law_words_of_two_texts(fen, rest);
}

/// A row without empty squares is written as it is.
proof fn lemma_full_row(row: Seq<char>, n: int)
    requires
        0 <= n <= row.len(),
        forall|k: int| 0 <= k < row.len() ==> #[trigger] row[k] != '1',
    ensures
        shortened_upto(row, n) == (row.take(n), 0nat),
    decreases n,
{
    if n > 0 {
        lemma_full_row(row, n - 1);
        assert(row.take(n) =~= row.take(n - 1).push(row[n - 1]));
    } else {
        assert(row.take(0) =~= Seq::<char>::empty());
    }
}

proof fn lemma_small_numbers()
    ensures
        decimal(1) == seq!['1'],
        decimal(5) == seq!['5'],
        decimal(9) == seq!['9'],
{
    reveal_with_fuel(decimal, 2);
    assert(decimal(1) =~= seq!['1']);
    assert(decimal(5) =~= seq!['5']);
    assert(decimal(9) =~= seq!['9']);
}

proof fn lemma_empty_row()
    ensures
        shortened(seq!['1', '1', '1', '1', '1', '1', '1', '1', '1']) == seq!['9'],
{
    lemma_small_numbers();
    let row = seq!['1', '1', '1', '1', '1', '1', '1', '1', '1'];
    reveal_with_fuel(shortened_upto, 10);
    assert(shortened_upto(row, 9) == (Seq::<char>::empty(), 9nat));
    assert(shortened(row) =~= seq!['9']);
}

proof fn lemma_cannon_row(c: char)
    requires
        c != '1',
    ensures
        shortened(seq!['1', c, '1', '1', '1', '1', '1', c, '1']) == seq!['1', c, '5', c, '1'],
{
    lemma_small_numbers();
    let row = seq!['1', c, '1', '1', '1', '1', '1', c, '1'];
    reveal_with_fuel(shortened_upto, 10);
    let (t, empty) = shortened_upto(row, 2);
    assert(t =~= seq!['1', c] && empty == 0);
    assert(shortened_upto(row, 7) == (t, 5nat));
    let (u, last) = shortened_upto(row, 8);
    assert(u =~= seq!['1', c, '5', c] && last == 0);
    assert(shortened_upto(row, 9) == (u, 1nat));
    assert(shortened(row) =~= seq!['1', c, '5', c, '1']);
}

proof fn lemma_pawn_row(c: char)
    requires
        c != '1',
    ensures
        shortened(seq![c, '1', c, '1', c, '1', c, '1', c]) == seq![
            c,
            '1',
            c,
            '1',
            c,
            '1',
            c,
            '1',
            c,
        ],
{
    lemma_small_numbers();
    let row = seq![c, '1', c, '1', c, '1', c, '1', c];
    reveal_with_fuel(shortened_upto, 3);
    let s1 = shortened_upto(row, 1);
    assert(s1.0 =~= row.take(1) && s1.1 == 0);
    let s3 = shortened_upto(row, 3);
    assert(s3.0 =~= row.take(3) && s3.1 == 0);
    let s5 = shortened_upto(row, 5);
    assert(s5.0 =~= row.take(5) && s5.1 == 0);
    let s7 = shortened_upto(row, 7);
    assert(s7.0 =~= row.take(7) && s7.1 == 0);
    let s9 = shortened_upto(row, 9);
    assert(s9.0 =~= row.take(9) && s9.1 == 0);
    assert(shortened(row) =~= row);
}

/// The rows of the start as they are written.
spec fn start_rows() -> Seq<Seq<char>> {
    let empty = seq!['9'];
    seq![
        seq!['r', 'n', 'b', 'a', 'k', 'a', 'b', 'n', 'r'],
        empty,
        seq!['1', 'c', '5', 'c', '1'],
        seq!['p', '1', 'p', '1', 'p', '1', 'p', '1', 'p'],
        empty,
        empty,
        seq!['P', '1', 'P', '1', 'P', '1', 'P', '1', 'P'],
        seq!['1', 'C', '5', 'C', '1'],
        empty,
        seq!['R', 'N', 'B', 'A', 'K', 'A', 'B', 'N', 'R'],
    ]
}

proof fn lemma_start_row(row: int)
    requires
        0 <= row < 10,
    ensures
        rows_text(initial_position())[row] == start_rows()[row],
{
    let p = initial_position();
    let cells = row_cells(p, row);
    assert forall|col: int| 0 <= col < 9 implies #[trigger] cells[col] == cell_char(
        initial_piece(row, col),
    ) by {
        let sq = square_at(row, col);
        assert(sq / 16 == row && sq % 16 == col);
    }
    if row == 0 {
        assert(cells =~= start_rows()[0]);
        lemma_full_row(cells, 9);
        assert(cells.take(9) =~= cells);
    } else if row == 9 {
        assert(cells =~= start_rows()[9]);
        lemma_full_row(cells, 9);
        assert(cells.take(9) =~= cells);
    } else if row == 2 {
        assert(cells =~= seq!['1', 'c', '1', '1', '1', '1', '1', 'c', '1']);
        lemma_cannon_row('c');
    } else if row == 7 {
        assert(cells =~= seq!['1', 'C', '1', '1', '1', '1', '1', 'C', '1']);
        lemma_cannon_row('C');
    } else if row == 3 {
        assert(cells =~= seq!['p', '1', 'p', '1', 'p', '1', 'p', '1', 'p']);
        lemma_pawn_row('p');
    } else if row == 6 {
        assert(cells =~= seq!['P', '1', 'P', '1', 'P', '1', 'P', '1', 'P']);
        lemma_pawn_row('P');
    } else {
        assert(cells =~= seq!['1', '1', '1', '1', '1', '1', '1', '1', '1']);
        lemma_empty_row();
    }
}

/// The usual text of the start.
spec fn start_text() -> Seq<char> {
    "rnbakabnr/9/1c5c1/p1p1p1p1p/9/9/P1P1P1P1P/1C5C1/9/RNBAKABNR w - - 0 1"@
}

/// One row more of a text.
proof fn lemma_next_row(text: Seq<char>, rows: Seq<Seq<char>>, k: int, from: int, to: int)
    requires
        1 <= k < rows.len(),
        0 <= from < to <= text.len(),
        joined_upto(rows, '/', k) == text.take(from),
        text[from] == '/',
        rows[k] == text.subrange(from + 1, to),
    ensures
        joined_upto(rows, '/', k + 1) == text.take(to),
{
    assert(text.take(from).push('/') + text.subrange(from + 1, to) =~= text.take(to));
}

/// The rows stand in the text, one behind the other.
proof fn lemma_start_rows_stand()
    ensures
        joined(start_rows(), '/') == start_text().take(59),
        start_text().len() == 69,
{
    reveal_strlit("rnbakabnr/9/1c5c1/p1p1p1p1p/9/9/P1P1P1P1P/1C5C1/9/RNBAKABNR w - - 0 1");
    let text = start_text();
    let rows = start_rows();
    reveal_with_fuel(joined_upto, 2);
    assert(rows[0] =~= text.subrange(0, 9));
    assert(text.subrange(0, 9) =~= text.take(9));
    assert(joined_upto(rows, '/', 1) =~= rows[0]);
    assert(rows[1] =~= text.subrange(10, 11));
    lemma_next_row(text, rows, 1, 9, 11);
    assert(rows[2] =~= text.subrange(12, 17));
    lemma_next_row(text, rows, 2, 11, 17);
    assert(rows[3] =~= text.subrange(18, 27));
    lemma_next_row(text, rows, 3, 17, 27);
    assert(rows[4] =~= text.subrange(28, 29));
    lemma_next_row(text, rows, 4, 27, 29);
    assert(rows[5] =~= text.subrange(30, 31));
    lemma_next_row(text, rows, 5, 29, 31);
    assert(rows[6] =~= text.subrange(32, 41));
    lemma_next_row(text, rows, 6, 31, 41);
    assert(rows[7] =~= text.subrange(42, 47));
    lemma_next_row(text, rows, 7, 41, 47);
    assert(rows[8] =~= text.subrange(48, 49));
    lemma_next_row(text, rows, 8, 47, 49);
    assert(rows[9] =~= text.subrange(50, 59));
    lemma_next_row(text, rows, 9, 49, 59);
}

/// The start of a game as it is written.
proof fn lemma_start_text()
    ensures
        fen_text(initial_position()).push(' ') + "- - 0 1"@ == start_text(),
{
    let rows = rows_text(initial_position());
    assert forall|row: int| 0 <= row < 10 implies #[trigger] rows[row] == start_rows()[row] by {
        lemma_start_row(row);
    }
    assert(rows =~= start_rows());
    lemma_start_rows_stand();
    reveal_strlit("- - 0 1");
    reveal_strlit("rnbakabnr/9/1c5c1/p1p1p1p1p/9/9/P1P1P1P1P/1C5C1/9/RNBAKABNR w - - 0 1");
    let text = start_text();
    let board = text.take(59);
    let whole = (board.push(' ') + seq!['w']).push(' ') + "- - 0 1"@;
    assert(whole.len() == text.len());
    assert forall|i: int| 0 <= i < text.len() implies #[trigger] whole[i] == text[i] by {
        if i < 59 {
            assert(whole[i] == board[i]);
        }
    }
    assert(whole =~= text);
}

/// The usual text of the start reads as the start.
pub proof fn law_the_usual_text_is_the_start()
    ensures
        fen_position("rnbakabnr/9/1c5c1/p1p1p1p1p/9/9/P1P1P1P1P/1C5C1/9/RNBAKABNR w - - 0 1"@)
            == initial_position(),
{
    let p = initial_position();
    lemma_start_text();
    law_the_start_is_tidy();
    law_reading_undoes_writing(p);
    lemma_position_cells(p);
    lemma_rows_no_space(position_cells(p), 10);
    law_two_words(joined(rows_text(p), '/'), seq![side_char(p.side_to_move)]);
    law_further_words_are_not_read(fen_text(p), "- - 0 1"@);
}

/// A step that takes no king keeps a position tidy: the kings stay where they are
/// noted.
pub proof fn law_play_keeps_positions_tidy(p: Position, m: Move)
    requires
        tidy(p),
        p.is_step(m),
        p.piece_at(m.to_spec()) matches Some(victim) ==> victim.piece_type != PieceType::King,
    ensures
        tidy(p.after_move(m)),
{
    reveal(Position::after_move);
    let q = p.after_move(m);
    let from = m.from_spec();
    let to = m.to_spec();
    assert(p.cells[from] is Some);
    assert(on_board(from) && on_board(to));
    assert forall|sq: int| on_board(sq) implies {
        &&& #[trigger] q.cells[sq] == Some(
            Piece { piece_type: PieceType::King, color: Color::Red },
        ) <==> sq == q.red_king_sq
        &&& q.cells[sq] == Some(Piece { piece_type: PieceType::King, color: Color::Black }) <==> sq
            == q.black_king_sq
    } by {
        assert(p.cells[sq] == p.cells[sq]);
        assert(p.cells[to] == p.cells[to]);
    }
}

/// What one more character does to a board that is being read: a slash goes to the start of the
/// next row, a digit passes over as many squares, and a letter of the alphabet of pieces puts
/// one down, red for a capital and black for a small letter, and goes one square on; any
/// other character does nothing.
pub proof fn law_a_board_is_read_character_by_character(s: Seq<char>, c: char, sq: int)
    requires
        0 <= sq < 256,
    ensures
        ({
            let before = read_text(read_start(), s);
            let after = read_text(read_start(), s.push(c));
            let here = 16 * before.row + before.col;
            let kind = if c == 'k' || c == 'K' {
                Some(PieceType::King)
            } else if c == 'a' || c == 'A' {
                Some(PieceType::Advisor)
            } else if c == 'b' || c == 'B' || c == 'e' || c == 'E' {
                Some(PieceType::Elephant)
            } else if c == 'n' || c == 'N' || c == 'h' || c == 'H' {
                Some(PieceType::Horse)
            } else if c == 'r' || c == 'R' {
                Some(PieceType::Rook)
            } else if c == 'c' || c == 'C' {
                Some(PieceType::Cannon)
            } else if c == 'p' || c == 'P' {
                Some(PieceType::Pawn)
            } else {
                None
            };
            let color = if 'A' <= c <= 'Z' {
                Color::Red
            } else {
                Color::Black
            };
            &&& after.p.cells.len() == 256
            &&& after.row == before.row + (if c == '/' {
                1int
            } else {
                0
            })
            &&& after.col == (if c == '/' {
                0
            } else if '0' <= c <= '9' {
                before.col + (c as int - '0' as int)
            } else if kind is Some {
                before.col + 1
            } else {
                before.col
            })
            &&& after.p.cells[sq] == (if kind is Some && on_board(here) && sq == here {
                Some(Piece { piece_type: kind->0, color })
            } else {
                before.p.cells[sq]
            })
            &&& after.p.red_king_sq == (if kind == Some(PieceType::King) && color == Color::Red {
                here as usize
            } else {
                before.p.red_king_sq
            })
            &&& after.p.black_king_sq == (if kind == Some(PieceType::King) && color == Color::Black {
                here as usize
            } else {
                before.p.black_king_sq
            })
        }),
{
    lemma_read_len(s);
    assert(s.push(c).drop_last() =~= s);
}

proof fn lemma_read_len(s: Seq<char>)
    ensures
        read_text(read_start(), s).p.cells.len() == 256,
    decreases s.len(),
{
    if s.len() > 0 {
        lemma_read_len(s.drop_last());
    }
}

} // verus!
