//! The three comparisons the ranking is built from.

use vstd::prelude::*;
use crate::player::ChessPlayer;

verus! {

/// Whether `target` has a strictly higher Elo than `other`.
pub fn is_stronger(target: &ChessPlayer, other: &ChessPlayer) -> (stronger: bool)
    ensures
        stronger == target@.stronger_than(other@),
{
    target.elo > other.elo
}

/// Whether `target` is strictly younger than `other`.
pub fn is_younger(target: &ChessPlayer, other: &ChessPlayer) -> (younger: bool)
    ensures
        younger == target@.younger_than(other@),
{
    target.age < other.age
}

/// Whether the two players have the same Elo and the same age. Names are
/// not compared.
pub fn are_equal_players(target: &ChessPlayer, other: &ChessPlayer) -> (equal: bool)
    ensures
        equal == target@.same_rank(other@),
{
    target.elo == other.elo && target.age == other.age
}

} // verus!
