//! A verified Xiangqi (Chinese chess) engine core.

pub mod bits;
pub mod board;
pub mod convert;
pub mod dataset;
pub mod eval_queue;
pub mod fen;
pub mod gui;
pub mod json;
pub mod mcts;
pub mod minimax;
pub mod movement;
pub mod moves;
pub mod nn;
pub mod ordering;
pub mod perft;
pub mod records;
pub mod repetition;
pub mod rules;
pub mod scores;
pub mod search;
pub mod selfplay;
pub mod steps;
pub mod symmetry;
pub mod text;
pub mod training;
pub mod trials;
pub mod tt;
pub mod ucci;
pub mod worth;
pub mod xiangqi;
pub mod zobrist;
