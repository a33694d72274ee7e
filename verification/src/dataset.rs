//! Positions for training: cleaned, mirrored, turned round.

use crate::board::{square_at, Color, Position};
use crate::fen::{
    board_text, cell_char, cell_piece, fen_position, fen_text, is_board_cells, is_row_cells,
    law_a_written_board_is_read, law_spelling_undoes_shortening, lemma_position_cells,
    lemma_rows_no_space, letter_piece, position_cells, row_cells, rows_text, shorten, shortened,
    side_char, spell, spelled, written_rows,
};
use crate::moves::{dense_of, lemma_square_round_trip, on_board, Move};
use crate::nn::{
    action_of, flipped_action, index_to_move, law_flipping_an_action_twice, law_mirroring_an_action_twice,
    mirrored_action, mirrored_tensor, move_to_index, recoloured, shown_square, tensor_of, turned_round,
    turned_square, ACTION_SPACE,
};
use crate::text::{
    append_all, chars_of, fields, is_digit, is_space, join_fields, joined, joined_upto, lacks,
    law_fields_of_joined, law_one_word, law_two_words, law_words_are_words, no_space, split_fields,
    split_words, string_of, texts, words,
};
use crate::ucci::named_squares;
use vstd::prelude::*;

verus! {

// ---------------------------------------------------------------------------
// Rows
// ---------------------------------------------------------------------------
/// Shortens a spelled-out row: each run of ones becomes its length.
pub fn compress_row(row: &str) -> (out: String)
    ensures
        out@ == shortened(row@),
{
    string_of(&shorten(&chars_of(row)))
}

fn reversed(row: &Vec<char>) -> (out: Vec<char>)
    ensures
        out@ == row@.reverse(),
{
    let mut out: Vec<char> = Vec::new();
    let mut i: usize = row.len();
    while i > 0
        invariant
            i <= row@.len(),
            out@ == row@.reverse().take(row@.len() - i),
        decreases i,
    {
        i -= 1;
        out.push(row[i]);
        assert(out@ =~= row@.reverse().take(row@.len() - i));
    }
    assert(out@ =~= row@.reverse());
    out
}

/// The other case of a letter; anything else stays.
pub open spec fn other_case(c: char) -> char {
    let u = c as u32;
    if 65 <= u <= 90 {
        (u + 32) as char
    } else if 97 <= u <= 122 {
        (u - 32) as char
    } else {
        c
    }
}

fn swap_case(c: char) -> (out: char)
    ensures
        out == other_case(c),
{
    let u = c as u32;
    if 65 <= u && u <= 90 {
        (u as u8 + 32) as char
    } else if 97 <= u && u <= 122 {
        (u as u8 - 32) as char
    } else {
        c
    }
}

/// The characters with their case swapped.
pub open spec fn recased(row: Seq<char>) -> Seq<char> {
    Seq::new(row.len(), |i: int| other_case(row[i]))
}

/// A row mirrored left to right.
pub open spec fn mirrored_row(row: Seq<char>) -> Seq<char> {
    shortened(spelled(row).reverse())
}

/// A row mirrored left to right, in the other colours.
pub open spec fn turned_row(row: Seq<char>) -> Seq<char> {
    shortened(recased(spelled(row)).reverse())
}

/// The rows mirrored left to right.
pub open spec fn mirrored_rows(rows: Seq<Seq<char>>) -> Seq<Seq<char>> {
    Seq::new(rows.len(), |i: int| mirrored_row(rows[i]))
}

/// The rows turned round in the other colours: the last one first.
pub open spec fn turned_rows(rows: Seq<Seq<char>>) -> Seq<Seq<char>> {
    Seq::new(rows.len(), |i: int| turned_row(rows[rows.len() - 1 - i]))
}

// ---------------------------------------------------------------------------
// Positions
// ---------------------------------------------------------------------------
/// A position's text with the board mirrored left to right; of what follows the board
/// only the side to move stays.
pub open spec fn mirrored_fen(fen: Seq<char>) -> Seq<char> {
    let parts = fields(fen, ' ');
    let board = joined(mirrored_rows(fields(parts[0], '/')), '/');
    if parts.len() > 1 {
        board.push(' ') + parts[1]
    } else {
        board
    }
}

/// Mirrors a position left to right.
pub fn mirror_fen(fen: &str) -> (out: String)
    ensures
        out@ == mirrored_fen(fen@),
{
    let parts = split_fields(&chars_of(fen), ' ');
    assert(texts(parts@)[0] == parts@[0]@);
    let rows = split_fields(&parts[0], '/');
    let ghost source = texts(rows@);
    let mut mirrored: Vec<Vec<char>> = Vec::new();
    let mut i: usize = 0;
    while i < rows.len()
        invariant
            i <= rows@.len(),
            source == texts(rows@),
            texts(mirrored@) == mirrored_rows(source).take(i as int),
        decreases rows@.len() - i,
    {
        let ghost before = mirrored@;
        let row = shorten(&reversed(&spell(&rows[i])));
        assert(source[i as int] == rows@[i as int]@);
        let ghost text = row@;
        mirrored.push(row);
        assert(texts(mirrored@) =~= texts(before).push(text));
        i += 1;
        assert(texts(mirrored@) =~= mirrored_rows(source).take(i as int));
    }
    assert(texts(mirrored@) =~= mirrored_rows(source));
    let mut out = join_fields(&mirrored, '/');
    if parts.len() > 1 {
        assert(texts(parts@)[1] == parts@[1]@);
        out.push(' ');
        append_all(&mut out, &parts[1]);
    }
    string_of(&out)
}

/// A position's text with the board turned round in the other colours, the first side
/// to move.
pub open spec fn turned_fen(fen: Seq<char>) -> Seq<char> {
    let parts = fields(fen, ' ');
    joined(turned_rows(fields(parts[0], '/')), '/') + seq![' ', 'w']
}

/// Turns a position round in the other colours.
pub fn mirror_fen_and_swap_colors(fen: &str) -> (out: String)
    ensures
        out@ == turned_fen(fen@),
{
    let parts = split_fields(&chars_of(fen), ' ');
    assert(texts(parts@)[0] == parts@[0]@);
    let rows = split_fields(&parts[0], '/');
    let ghost source = texts(rows@);
    let mut turned: Vec<Vec<char>> = Vec::new();
    let mut i: usize = rows.len();
    while i > 0
        invariant
            i <= rows@.len(),
            source == texts(rows@),
            texts(turned@) == turned_rows(source).take(rows@.len() - i),
        decreases i,
    {
        i -= 1;
        let spelled_row = spell(&rows[i]);
        assert(source[i as int] == rows@[i as int]@);
        let mut swapped: Vec<char> = Vec::new();
        let mut k: usize = 0;
        while k < spelled_row.len()
            invariant
                k <= spelled_row@.len(),
                swapped@ == recased(spelled_row@).take(k as int),
            decreases spelled_row@.len() - k,
        {
            swapped.push(swap_case(spelled_row[k]));
            k += 1;
            assert(swapped@ =~= recased(spelled_row@).take(k as int));
        }
        assert(swapped@ =~= recased(spelled_row@));
        let row = shorten(&reversed(&swapped));
        let ghost before = turned@;
        let ghost text = row@;
        turned.push(row);
        assert(texts(turned@) =~= texts(before).push(text));
        assert(texts(turned@) =~= turned_rows(source).take(rows@.len() - i));
    }
    assert(texts(turned@) =~= turned_rows(source));
    let mut out = join_fields(&turned, '/');
    out.push(' ');
    out.push('w');
    assert(out@ =~= turned_fen(fen@));
    string_of(&out)
}

/// A position's text cut down to the board and the side to move.
pub open spec fn cleaned_fen(fen: Seq<char>) -> Seq<char> {
    let parts = words(fen);
    if parts.len() >= 2 {
        parts[0].push(' ') + parts[1]
    } else {
        fen
    }
}

/// Drops what follows the side to move.
pub fn clean_fen(fen: &str) -> (out: String)
    ensures
        out@ == cleaned_fen(fen@),
{
    let chars = chars_of(fen);
    let parts = split_words(&chars);
    if parts.len() >= 2 {
        assert(texts(parts@)[0] == parts@[0]@ && texts(parts@)[1] == parts@[1]@);
        let mut out: Vec<char> = Vec::new();
        append_all(&mut out, &parts[0]);
        assert(out@ =~= parts@[0]@);
        out.push(' ');
        append_all(&mut out, &parts[1]);
        string_of(&out)
    } else {
        string_of(&chars)
    }
}

// ---------------------------------------------------------------------------
// Moves
// ---------------------------------------------------------------------------
/// The text can be read as a move: files from `a` on, ranks 0 to 9.
pub open spec fn is_move_text(s: Seq<char>) -> bool {
    &&& s.len() >= 4
    &&& s[0] as u32 >= 97
    &&& 48 <= s[1] as u32 <= 57
    &&& s[2] as u32 >= 97
    &&& 48 <= s[3] as u32 <= 57
}

/// The dense index of a file and a rank.
pub open spec fn text_dense(file: char, rank: char) -> int {
    (57 - rank as u32) * 9 + (file as u32 - 97)
}

/// Tests whether a text can be read as a move.
pub fn check_move_text(s: &Vec<char>) -> (ok: bool)
    ensures
        ok == is_move_text(s@),
{
    s.len() >= 4 && s[0] as u32 >= 97 && 48 <= s[1] as u32 && s[1] as u32 <= 57 && s[2] as u32 >= 97
        && 48 <= s[3] as u32 && s[3] as u32 <= 57
}

fn read_dense(file: char, rank: char) -> (dense: usize)
    requires
        file as u32 >= 97,
        48 <= rank as u32 <= 57,
    ensures
        dense == text_dense(file, rank),
        dense <= 0x110000,
{
    let col = (file as u32 - 97) as usize;
    let row = 9 - (rank as u32 - 48) as usize;
    row * 9 + col
}

fn move_index(s: &Vec<char>) -> (index: usize)
    requires
        is_move_text(s@),
    ensures
        index == text_dense(s@[0], s@[1]) * 90 + text_dense(s@[2], s@[3]),
{
    let from_dense = read_dense(s[0], s[1]);
    let to_dense = read_dense(s[2], s[3]);
    from_dense * 90 + to_dense
}

/// The action index of a move given as text.
pub fn get_move_index(best_move: &str) -> (index: usize)
    requires
        is_move_text(best_move@),
    ensures
        index == text_dense(best_move@[0], best_move@[1]) * 90 + text_dense(
            best_move@[2],
            best_move@[3],
        ),
{
    move_index(&chars_of(best_move))
}

/// The square mirrored left to right.
fn mirror_square(sq: usize) -> (mirrored: usize)
    requires
        on_board(sq as int),
    ensures
        on_board(mirrored as int),
        dense_of(mirrored as int) == dense_of(sq as int) - dense_of(sq as int) % 9 + (8 - dense_of(
            sq as int,
        ) % 9),
{
    let row = sq / 16;
    let col = sq % 16;
    let new_col = 8 - col;
    row * 16 + new_col
}

/// The square seen from the other side of the board.
fn turn_square(sq: usize) -> (turned: usize)
    requires
        on_board(sq as int),
    ensures
        on_board(turned as int),
        dense_of(turned as int) == 89 - dense_of(sq as int),
{
    let row = sq / 16;
    let col = sq % 16;
    let new_row = 9 - row;
    let new_col = 8 - col;
    new_row * 16 + new_col
}

/// The action on the board mirrored left to right.
pub fn mirror_policy(index: usize) -> (mirrored: usize)
    requires
        index < ACTION_SPACE,
    ensures
        mirrored == mirrored_action(index as int),
        mirrored < ACTION_SPACE,
{
    let (from_sq, to_sq) = index_to_move(index);
    let nf_sq = mirror_square(from_sq);
    let nt_sq = mirror_square(to_sq);
    proof {
        lemma_square_round_trip(index as int / 90);
        lemma_square_round_trip(index as int % 90);
        Move::lemma_packed(nf_sq, nt_sq, false);
        law_mirroring_an_action_twice(index as int);
    }
    let mirrored_move = Move::new(nf_sq, nt_sq, false);
    move_to_index(mirrored_move)
}

/// The action on the board turned round.
pub fn mirror_policy_180(index: usize) -> (turned: usize)
    requires
        index < ACTION_SPACE,
    ensures
        turned == flipped_action(index as int),
        turned < ACTION_SPACE,
{
    let (from_sq, to_sq) = index_to_move(index);
    let nf_sq = turn_square(from_sq);
    let nt_sq = turn_square(to_sq);
    proof {
        lemma_square_round_trip(index as int / 90);
        lemma_square_round_trip(index as int % 90);
        Move::lemma_packed(nf_sq, nt_sq, false);
        law_flipping_an_action_twice(index as int);
    }
    let turned_move = Move::new(nf_sq, nt_sq, false);
    move_to_index(turned_move)
}

// ---------------------------------------------------------------------------
// What the texts describe
// ---------------------------------------------------------------------------
/// The square mirrored left to right.
pub open spec fn mirrored_square(sq: int) -> int {
    square_at(sq / 16, 8 - sq % 16)
}

/// The position mirrored left to right.
pub open spec fn mirrored_position(p: Position) -> Position {
    Position {
        cells: Seq::new(
            256,
            |sq: int|
                if on_board(sq) {
                    p.cells[mirrored_square(sq)]
                } else {
                    None
                },
        ),
        side_to_move: p.side_to_move,
        red_king_sq: mirrored_square(p.red_king_sq as int) as usize,
        black_king_sq: mirrored_square(p.black_king_sq as int) as usize,
    }
}

proof fn lemma_mirrored_square(row: int, col: int)
    requires
        0 <= row <= 9,
        0 <= col <= 8,
    ensures
        on_board(square_at(row, col)),
        mirrored_square(square_at(row, col)) == square_at(row, 8 - col),
{
}

/// A row as it is written: nine squares, each run of empty ones as its length.
pub open spec fn is_row_text(row: Seq<char>) -> bool {
    is_row_cells(spelled(row)) && shortened(spelled(row)) == row
}

/// Ten rows as they are written.
pub open spec fn is_board_text(rows: Seq<Seq<char>>) -> bool {
    rows.len() == 10 && forall|i: int| 0 <= i < 10 ==> is_row_text(#[trigger] rows[i])
}

/// A position's text: rows set apart by slashes, a space, and a word for the side.
pub open spec fn position_text(rows: Seq<Seq<char>>, side: Seq<char>) -> Seq<char> {
    joined(rows, '/').push(' ') + side
}

/// The rows, spelled out.
spec fn spelled_rows(rows: Seq<Seq<char>>) -> Seq<Seq<char>> {
    Seq::new(rows.len(), |i: int| spelled(rows[i]))
}

proof fn lemma_spelled_rows(rows: Seq<Seq<char>>)
    requires
        is_board_text(rows),
    ensures
        is_board_cells(spelled_rows(rows)),
        written_rows(spelled_rows(rows)) == rows,
{
    let cells = spelled_rows(rows);
    assert forall|i: int| 0 <= i < 10 implies is_row_cells(#[trigger] cells[i]) by {
        assert(is_row_text(rows[i]));
    }
    assert forall|i: int| 0 <= i < 10 implies #[trigger] written_rows(cells)[i] == rows[i] by {
        assert(is_row_text(rows[i]));
    }
    assert(written_rows(cells) =~= rows);
}

/// A spelled-out row is found again in what is written.
proof fn lemma_written_row(cells: Seq<char>)
    requires
        is_row_cells(cells),
    ensures
        spelled(shortened(cells)) == cells,
        is_row_text(shortened(cells)),
{
    assert forall|k: int| 0 <= k < cells.len() implies #[trigger] cells[k] == '1' || !is_digit(
        cells[k],
    ) by {
        assert(cells[k] == '1' || letter_piece(cells[k]) is Some);
    }
    law_spelling_undoes_shortening(cells);
}

/// How a position's text falls apart.
proof fn lemma_text_parts(rows: Seq<Seq<char>>, side: Seq<char>)
    requires
        is_board_text(rows),
        lacks(side, ' '),
    ensures
        fields(position_text(rows, side), ' ') == seq![joined(rows, '/'), side],
        fields(joined(rows, '/'), '/') == rows,
{
    let board = joined(rows, '/');
    lemma_spelled_rows(rows);
    lemma_rows_no_space(spelled_rows(rows), 10);
    law_fields_of_joined(rows, '/');
    let parts = seq![board, side];
    assert(lacks(board, ' ')) by {
        assert forall|k: int| 0 <= k < board.len() implies #[trigger] board[k] != ' ' by {
            assert(!is_space(board[k]));
        }
    }
    assert forall|i: int| 0 <= i < parts.len() implies lacks(#[trigger] parts[i], ' ') by {}
    law_fields_of_joined(parts, ' ');
    reveal_with_fuel(joined_upto, 3);
    assert(joined(parts, ' ') =~= position_text(rows, side));
}

/// A written position is such a text.
pub proof fn lemma_fen_parts(p: Position)
    ensures
        is_board_text(rows_text(p)),
        fields(fen_text(p), ' ') == seq![
            joined(rows_text(p), '/'),
            seq![side_char(p.side_to_move)],
        ],
        fields(joined(rows_text(p), '/'), '/') == rows_text(p),
{
    let rows = rows_text(p);
    lemma_position_cells(p);
    assert forall|i: int| 0 <= i < 10 implies is_row_text(#[trigger] rows[i]) by {
        assert(is_row_cells(position_cells(p)[i]));
        lemma_written_row(row_cells(p, i));
    }
    lemma_text_parts(rows, seq![side_char(p.side_to_move)]);
}

/// A row of the board is spelled out with letters and ones.
proof fn lemma_row_is_spelled(p: Position, row: int)
    requires
        0 <= row < 10,
    ensures
        spelled(shortened(row_cells(p, row))) == row_cells(p, row),
{
    lemma_position_cells(p);
    assert(is_row_cells(position_cells(p)[row]));
    lemma_written_row(row_cells(p, row));
}

/// A mirrored row is a row, with its squares in reverse.
proof fn lemma_mirrored_row(row: Seq<char>)
    requires
        is_row_text(row),
    ensures
        is_row_text(mirrored_row(row)),
        spelled(mirrored_row(row)) == spelled(row).reverse(),
        mirrored_row(mirrored_row(row)) == row,
{
    let cells = spelled(row).reverse();
    assert forall|k: int| 0 <= k < cells.len() implies #[trigger] cells[k] == '1' || letter_piece(
        cells[k],
    ) is Some by {
        assert(cells[k] == spelled(row)[8 - k]);
    }
    lemma_written_row(cells);
    assert(cells.reverse() =~= spelled(row));
}

/// Mirroring a text mirrors its rows and keeps the side.
proof fn lemma_mirrored_text(rows: Seq<Seq<char>>, side: Seq<char>)
    requires
        is_board_text(rows),
        lacks(side, ' '),
    ensures
        mirrored_fen(position_text(rows, side)) == position_text(mirrored_rows(rows), side),
        is_board_text(mirrored_rows(rows)),
{
    lemma_text_parts(rows, side);
    assert forall|i: int| 0 <= i < 10 implies is_row_text(#[trigger] mirrored_rows(rows)[i]) by {
        assert(is_row_text(rows[i]));
        lemma_mirrored_row(rows[i]);
    }
}

/// Mirroring a position's text twice gives it back, whatever letters it uses for the
/// pieces and whatever word for the side.
pub proof fn law_mirroring_a_text_twice(rows: Seq<Seq<char>>, side: Seq<char>)
    requires
        is_board_text(rows),
        lacks(side, ' '),
    ensures
        mirrored_fen(mirrored_fen(position_text(rows, side))) == position_text(rows, side),
{
    lemma_mirrored_text(rows, side);
    lemma_mirrored_text(mirrored_rows(rows), side);
    let twice = mirrored_rows(mirrored_rows(rows));
    assert forall|i: int| 0 <= i < 10 implies #[trigger] twice[i] == rows[i] by {
        assert(is_row_text(rows[i]));
        lemma_mirrored_row(rows[i]);
    }
    assert(twice =~= rows);
}

/// A mirrored text describes the mirrored board: on each square the piece that the text
/// itself has on the square mirrored left to right, and the same side to move.
pub proof fn law_a_mirrored_text_describes_the_mirrored_board(
    rows: Seq<Seq<char>>,
    side: Seq<char>,
    row: int,
    col: int,
)
    requires
        is_board_text(rows),
        lacks(side, ' '),
        0 <= row < 10,
        0 <= col < 9,
    ensures
        ({
            let p = fen_position(position_text(rows, side));
            let q = fen_position(mirrored_fen(position_text(rows, side)));
            &&& q.piece_at(square_at(row, col)) == p.piece_at(square_at(row, 8 - col))
            &&& q.side_to_move == p.side_to_move
        }),
{
    let mirrored = mirrored_rows(rows);
    lemma_mirrored_text(rows, side);
    lemma_spelled_rows(rows);
    lemma_spelled_rows(mirrored);
    let a = spelled_rows(rows);
    let b = spelled_rows(mirrored);
    assert(position_text(rows, side) == board_text(a, side));
    assert(position_text(mirrored, side) == board_text(b, side));
    law_a_written_board_is_read(a, side);
    law_a_written_board_is_read(b, side);
    assert(is_row_text(rows[row]));
    lemma_mirrored_row(rows[row]);
    lemma_mirrored_square(row, col);
    lemma_mirrored_square(row, 8 - col);
    let sq = square_at(row, col);
    let seen = square_at(row, 8 - col);
    assert(sq / 16 == row && sq % 16 == col && seen / 16 == row && seen % 16 == 8 - col);
    assert(b[row] == a[row].reverse());
    assert(b[row][col] == a[row][8 - col]);
    assert(cell_piece(b, sq) == cell_piece(a, seen));
}

/// A turned row is a row: its squares in reverse, the pieces in the other colours.
proof fn lemma_turned_row(row: Seq<char>)
    requires
        is_row_text(row),
    ensures
        is_row_text(turned_row(row)),
        spelled(turned_row(row)) == recased(spelled(row)).reverse(),
        forall|k: int|
            0 <= k < 9 ==> letter_piece(#[trigger] spelled(turned_row(row))[k]) == recoloured(
                letter_piece(spelled(row)[8 - k]),
            ),
{
    let source = spelled(row);
    let cells = recased(source).reverse();
    assert forall|k: int| 0 <= k < 9 implies (#[trigger] cells[k] == '1' || letter_piece(
        cells[k],
    ) is Some) && letter_piece(cells[k]) == recoloured(letter_piece(source[8 - k])) by {
        assert(cells[k] == other_case(source[8 - k]));
        assert(source[8 - k] == '1' || letter_piece(source[8 - k]) is Some);
    }
    lemma_written_row(cells);
}

/// A turned text describes the board turned round: on each square the piece that the text
/// itself has on the square turned round, in the other colour, and red to move.
pub proof fn law_a_turned_text_describes_the_turned_board(
    rows: Seq<Seq<char>>,
    side: Seq<char>,
    row: int,
    col: int,
)
    requires
        is_board_text(rows),
        lacks(side, ' '),
        0 <= row < 10,
        0 <= col < 9,
    ensures
        ({
            let p = fen_position(position_text(rows, side));
            let q = fen_position(turned_fen(position_text(rows, side)));
            &&& q.piece_at(square_at(row, col)) == recoloured(
                p.piece_at(square_at(9 - row, 8 - col)),
            )
            &&& q.side_to_move == Color::Red
        }),
{
    let turned = turned_rows(rows);
    lemma_text_parts(rows, side);
    assert forall|i: int| 0 <= i < 10 implies is_row_text(#[trigger] turned[i]) by {
        assert(is_row_text(rows[9 - i]));
        lemma_turned_row(rows[9 - i]);
    }
    lemma_spelled_rows(rows);
    lemma_spelled_rows(turned);
    let a = spelled_rows(rows);
    let b = spelled_rows(turned);
    let red = seq!['w'];
    assert(position_text(rows, side) == board_text(a, side));
    assert(turned_fen(position_text(rows, side)) =~= board_text(b, red));
    law_a_written_board_is_read(a, side);
    law_a_written_board_is_read(b, red);
    law_one_word(red);
    reveal_strlit("b");
    reveal_strlit("B");
    assert(red[0] != "b"@[0] && red[0] != "B"@[0]);
    assert(is_row_text(rows[9 - row]));
    lemma_turned_row(rows[9 - row]);
    let sq = square_at(row, col);
    let seen = square_at(9 - row, 8 - col);
    lemma_mirrored_square(row, col);
    lemma_mirrored_square(9 - row, 8 - col);
    assert(sq / 16 == row && sq % 16 == col && seen / 16 == 9 - row && seen % 16 == 8 - col);
    assert(b[row] == spelled(turned_row(rows[9 - row])));
    assert(cell_piece(b, sq) == recoloured(cell_piece(a, seen)));
}

/// Mirroring the text of a position gives the text of the mirrored position.
pub proof fn law_mirrored_text_describes_mirrored_position(p: Position)
    ensures
        mirrored_fen(fen_text(p)) == fen_text(mirrored_position(p)),
{
    let q = mirrored_position(p);
    lemma_fen_parts(p);
    let rows = rows_text(p);
    assert forall|r: int| 0 <= r < 10 implies #[trigger] mirrored_rows(rows)[r] == rows_text(
        q,
    )[r] by {
        lemma_row_is_spelled(p, r);
        let a = row_cells(p, r).reverse();
        let b = row_cells(q, r);
        assert forall|c: int| 0 <= c < 9 implies #[trigger] a[c] == b[c] by {
            assert(a[c] == row_cells(p, r)[8 - c]);
            assert(on_board(square_at(r, c)));
            assert(mirrored_square(square_at(r, c)) == square_at(r, 8 - c));
        }
        assert(a =~= b);
    }
    assert(mirrored_rows(rows) =~= rows_text(q));
}

/// A square of the position turned round is written as the turned square, in the other
/// case.
proof fn lemma_turned_cell(p: Position, row: int, col: int)
    requires
        0 <= row < 10,
        0 <= col < 9,
    ensures
        row_cells(turned_round(p), row)[col] == other_case(row_cells(p, 9 - row)[8 - col]),
{
    let sq = square_at(row, col);
    lemma_mirrored_square(row, col);
    lemma_mirrored_square(9 - row, 8 - col);
    assert(sq / 16 == row && sq % 16 == col);
    assert(turned_square(sq) == square_at(9 - row, 8 - col));
    let piece = p.piece_at(square_at(9 - row, 8 - col));
    assert(turned_round(p).piece_at(sq) == recoloured(piece));
    assert(cell_char(recoloured(piece)) == other_case(cell_char(piece)));
}

/// Turning the text of a position round gives the text of the position turned round in
/// the other colours, if black is to move.
pub proof fn law_turned_text_describes_turned_position(p: Position)
    requires
        p.side_to_move == Color::Black,
    ensures
        turned_fen(fen_text(p)) == fen_text(turned_round(p)),
{
    let q = turned_round(p);
    lemma_fen_parts(p);
    let rows = rows_text(p);
    assert forall|r: int| 0 <= r < 10 implies #[trigger] turned_rows(rows)[r] == rows_text(
        q,
    )[r] by {
        lemma_row_is_spelled(p, 9 - r);
        let source = row_cells(p, 9 - r);
        let a = recased(source).reverse();
        let b = row_cells(q, r);
        assert forall|c: int| 0 <= c < 9 implies #[trigger] a[c] == b[c] by {
            lemma_turned_cell(p, r, c);
        }
        assert(a =~= b);
        assert(rows[9 - r] == shortened(source));
    }
    assert(turned_rows(rows) =~= rows_text(q));
    assert(turned_fen(fen_text(p)) =~= fen_text(q));
}

/// A move's text has the action index of the squares it names.
pub proof fn law_text_and_squares_have_one_index(s: Seq<char>)
    requires
        named_squares(s) is Some,
    ensures
        is_move_text(s),
        text_dense(s[0], s[1]) * 90 + text_dense(s[2], s[3]) == action_of(
            (named_squares(s)->0).0,
            (named_squares(s)->0).1,
        ),
{
    let from = (named_squares(s)->0).0;
    let to = (named_squares(s)->0).1;
    assert(dense_of(from) == text_dense(s[0], s[1]));
    assert(dense_of(to) == text_dense(s[2], s[3]));
}

/// Where mirroring a tensor takes an entry from: the same plane and row.
proof fn lemma_mirrored_index(i: int)
    requires
        0 <= i < 1260,
    ensures
        ({
            let j = i - i % 9 + (8 - i % 9);
            &&& 0 <= j < 1260
            &&& j / 90 == i / 90
            &&& j % 90 / 9 == i % 90 / 9
            &&& j % 9 == 8 - i % 9
            &&& 0 <= i % 90 / 9 <= 9
        }),
{
}

/// The tensor of the mirrored position is the mirrored tensor.
pub proof fn law_mirrored_position_has_mirrored_tensor(p: Position)
    ensures
        tensor_of(mirrored_position(p)) == mirrored_tensor(tensor_of(p)),
{
    let q = mirrored_position(p);
    let a = tensor_of(q);
    let b = mirrored_tensor(tensor_of(p));
    assert forall|i: int| 0 <= i < 1260 implies #[trigger] a[i] == b[i] by {
        lemma_mirrored_index(i);
        let row = i % 90 / 9;
        let col = i % 9;
        lemma_mirrored_square(row, col);
        lemma_mirrored_square(9 - row, 8 - col);
        lemma_mirrored_square(row, 8 - col);
        lemma_mirrored_square(9 - row, col);
        let sq = shown_square(q.side_to_move, row, col);
        assert(q.cells[sq] == p.cells[mirrored_square(sq)]);
        assert(mirrored_square(sq) == shown_square(p.side_to_move, row, 8 - col));
    }
    assert(a =~= b);
}

/// A position's text that is cut down still describes the position.
pub proof fn law_a_cleaned_text_describes_the_same_position(fen: Seq<char>)
    ensures
        fen_position(cleaned_fen(fen)) == fen_position(fen),
        words(fen).len() >= 2 ==> words(cleaned_fen(fen)) == seq![words(fen)[0], words(fen)[1]],
{
    let parts = words(fen);
    if parts.len() >= 2 {
        law_words_are_words(fen);
        assert(parts[0].len() > 0 && no_space(parts[0]));
        assert(parts[1].len() > 0 && no_space(parts[1]));
        law_two_words(parts[0], parts[1]);
    }
}

/// Only the first four characters of a move's text are read, a text of fewer names no move, and
/// each of two squares is named by a small letter or a later character and a digit.
pub proof fn law_four_characters_name_a_move(s: Seq<char>, rest: Seq<char>)
    ensures
        s.len() >= 4 ==> is_move_text(s + rest) == is_move_text(s),
        s.len() < 4 ==> !is_move_text(s),
        s.len() == 4 ==> (is_move_text(s) <==> 'a' <= s[0] && '0' <= s[1] <= '9' && 'a' <= s[2]
            && '0' <= s[3] <= '9'),
{
    if s.len() >= 4 {
        let all = s + rest;
        assert(all[0] == s[0] && all[1] == s[1] && all[2] == s[2] && all[3] == s[3]);
        lemma_char_codes(s[0]);
        lemma_char_codes(s[1]);
        lemma_char_codes(s[2]);
        lemma_char_codes(s[3]);
    }
}

proof fn lemma_char_codes(c: char)
    ensures
        c as u32 >= 97 <==> 'a' <= c,
        48 <= c as u32 <= 57 <==> '0' <= c <= '9',
{
}

} // verus!
