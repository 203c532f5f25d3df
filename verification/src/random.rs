use rand::rngs::ThreadRng;
use rand::seq::SliceRandom;
use vstd::prelude::*;

use crate::board::{Board, Move};
use crate::geometry::MoveTable;
use crate::moves::side_moves;

verus! {

/// `rand::rngs::ThreadRng`, the generator that `rand` keeps for each
/// thread. Verus sees nothing inside it.
#[verifier::external_type_specification]
#[verifier::external_body]
pub struct ExThreadRng(ThreadRng);

/// `rand::thread_rng`: a handle to the generator of the current thread.
/// Nothing is claimed of it.
#[verifier::external_body]
fn thread_generator() -> ThreadRng {
    rand::thread_rng()
}

/// `rand::seq::SliceRandom::choose` on the slice of `moves`: `None` for an
/// empty slice, otherwise one of its elements, drawn with `rng`. Which
/// element is not stated.
#[verifier::external_body]
fn choose_move(moves: &Vec<Move>, rng: &mut ThreadRng) -> (picked: Option<Move>)
    ensures
        moves@.len() == 0 ==> picked is None,
        moves@.len() > 0 ==> picked is Some && moves@.contains(picked->0),
{
    moves.choose(rng).copied()
}

/// A random opponent for White: one of Black's legal moves, drawn at
/// random, or `None` when Black has no move.
pub fn random_white(board: &Board, table: &MoveTable) -> (picked: Option<Move>)
    ensures
        side_moves(board@, false).len() == 0 ==> picked is None,
        side_moves(board@, false).len() > 0 ==> picked is Some && side_moves(
            board@,
            false,
        ).contains(picked->0),
{
    let moves: Vec<Move> = board.black_moves(table).collect();
    let mut rng: ThreadRng = thread_generator();
    choose_move(&moves, &mut rng)
}

/// A random opponent for Black: one of White's legal moves, drawn at
/// random, or `None` when White has no move.
pub fn random_black(board: &Board, table: &MoveTable) -> (picked: Option<Move>)
    ensures
        side_moves(board@, true).len() == 0 ==> picked is None,
        side_moves(board@, true).len() > 0 ==> picked is Some && side_moves(board@, true).contains(
            picked->0,
        ),
{
    let moves: Vec<Move> = board.white_moves(table).collect();
    let mut rng: ThreadRng = thread_generator();
    choose_move(&moves, &mut rng)
}

} // verus!
