//! Counting the lines of play, the usual test of a move generator.

use crate::board::{law_unmake_undoes_make, Board, Position};
use crate::rules::{get_legal_moves, law_legal_moves_are_safe_steps, legal_moves_spec, Rules};
use vstd::prelude::*;

verus! {

/// The number of lines of `depth` legal moves.
pub open spec fn perft_spec<R: Rules>(rules: &R, p: Position, depth: u8) -> nat
    decreases depth, 1int, 0int,
{
    if depth == 0 {
        1
    } else {
        perft_over(rules, p, depth, legal_moves_spec(rules, p).len() as int)
    }
}

/// The number of those lines that start with one of the first `n` legal moves.
pub open spec fn perft_over<R: Rules>(rules: &R, p: Position, depth: u8, n: int) -> nat
    decreases depth, 0int, n,
{
    if n <= 0 || depth == 0 {
        0
    } else {
        perft_over(rules, p, depth, n - 1) + perft_spec(
            rules,
            p.after_move(legal_moves_spec(rules, p)[n - 1]),
            (depth - 1) as u8,
        )
    }
}

proof fn lemma_perft_over_grows<R: Rules>(rules: &R, p: Position, depth: u8, n: int, m: int)
    requires
        0 <= n <= m,
    ensures
        perft_over(rules, p, depth, n) <= perft_over(rules, p, depth, m),
    decreases m,
{
    if n < m && depth > 0 {
        lemma_perft_over_grows(rules, p, depth, n, m - 1);
    }
}

/// Counts the lines of `depth` legal moves; `None` if there are more than a `u64` holds.
pub fn perft<R: Rules>(rules: &R, board: &mut Board, depth: u8) -> (nodes: Option<u64>)
    ensures
        final(board)@ == old(board)@,
        match nodes {
            Some(count) => count == perft_spec(rules, old(board)@, depth),
            None => perft_spec(rules, old(board)@, depth) > u64::MAX,
        },
    decreases depth,
{
    if depth == 0 {
        return Some(1);
    }
    let ghost p = board@;
    proof {
        board.lemma_cells_len();
        law_legal_moves_are_safe_steps(rules, p);
    }
    let moves = get_legal_moves(rules, board);
    let mut nodes: u64 = 0;
    let mut i: usize = 0;
    while i < moves.len()
        invariant
            i <= moves@.len(),
            depth > 0,
            board@ == p,
            p.cells.len() == 256,
            moves@ == legal_moves_spec(rules, p),
            forall|k: int| 0 <= k < moves@.len() ==> p.is_safe_step(#[trigger] moves@[k]),
            nodes == perft_over(rules, p, depth, i as int),
            p == old(board)@,
        decreases moves@.len() - i,
    {
        let m = moves[i];
        assert(p.is_safe_step(moves@[i as int]));
        let undo = board.make_move(m);
        proof {
            p.lemma_step_keeps(m);
            law_unmake_undoes_make(p, m, undo);
        }
        let below = perft(rules, board, depth - 1);
        board.unmake_move(m, undo);
        proof {
            lemma_perft_over_grows(rules, p, depth, i + 1, moves@.len() as int);
        }
        match below {
            None => return None,
            Some(count) => match nodes.checked_add(count) {
                None => return None,
                Some(total) => {
                    nodes = total;
                },
            },
        }
        i += 1;
    }
    Some(nodes)
}

/// The lines of one move are the legal moves, and those of more moves are, for each legal
/// move, the lines that are one move shorter from where it leads.
pub proof fn law_lines_are_counted_by_their_first_move<R: Rules>(rules: &R, p: Position, depth: u8)
    ensures
        perft_spec(rules, p, 0) == 1,
        perft_spec(rules, p, 1) == legal_moves_spec(rules, p).len(),
        depth > 0 ==> perft_spec(rules, p, depth) == Seq::new(
            legal_moves_spec(rules, p).len(),
            |i: int|
                perft_spec(rules, p.after_move(legal_moves_spec(rules, p)[i]), (depth - 1) as u8),
        ).fold_left(0nat, |sum: nat, lines: nat| sum + lines),
{
    let n = legal_moves_spec(rules, p).len() as int;
    if depth > 0 {
        lemma_perft_over_is_a_sum(rules, p, depth, n);
    }
    lemma_single_moves(rules, p, n);
}

proof fn lemma_single_moves<R: Rules>(rules: &R, p: Position, n: int)
    requires
        n >= 0,
    ensures
        perft_over(rules, p, 1, n) == n,
    decreases n,
{
    if n > 0 {
        lemma_single_moves(rules, p, n - 1);
        assert(perft_spec(rules, p.after_move(legal_moves_spec(rules, p)[n - 1]), 0) == 1);
    }
}

proof fn lemma_perft_over_is_a_sum<R: Rules>(rules: &R, p: Position, depth: u8, n: int)
    requires
        depth > 0,
        n >= 0,
    ensures
        perft_over(rules, p, depth, n) == Seq::new(
            n as nat,
            |i: int|
                perft_spec(rules, p.after_move(legal_moves_spec(rules, p)[i]), (depth - 1) as u8),
        ).fold_left(0nat, |sum: nat, lines: nat| sum + lines),
    decreases n,
{
    let more = |sum: nat, lines: nat| sum + lines;
    let count = |i: int|
        perft_spec(rules, p.after_move(legal_moves_spec(rules, p)[i]), (depth - 1) as u8);
    let all = Seq::new(n as nat, count);
    if n > 0 {
        lemma_perft_over_is_a_sum(rules, p, depth, n - 1);
        assert(all.drop_last() =~= Seq::new((n - 1) as nat, count));
        assert(all.last() == count(n - 1));
        assert(all.fold_left(0nat, more) == more(
            all.drop_last().fold_left(0nat, more),
            all.last(),
        ));
    }
}

} // verus!
