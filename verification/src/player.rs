//! The player record and its mathematical view.

use vstd::prelude::*;
use vstd::std_specs::cmp::PartialEqSpecImpl;

verus! {

/// What a player is in contracts: the two ranking attributes as natural
/// numbers and the name as a sequence of characters.
pub struct PlayerView {
    pub elo: nat,
    pub age: nat,
    pub name: Seq<char>,
}

/// A chess player. `elo` and `age` rank the player; `name` only identifies.
#[derive(Debug, Hash)]
pub struct ChessPlayer {
    pub elo: u16,
    pub age: u8,
    pub name: String,
}

impl View for ChessPlayer {
    type V = PlayerView;

    open spec fn view(&self) -> PlayerView {
        PlayerView { elo: self.elo as nat, age: self.age as nat, name: self.name@ }
    }
}

impl PlayerView {
    /// Strictly higher Elo.
    pub open spec fn stronger_than(self, other: PlayerView) -> bool {
        self.elo > other.elo
    }

    /// Strictly lower age.
    pub open spec fn younger_than(self, other: PlayerView) -> bool {
        self.age < other.age
    }

    /// Same Elo and same age; the name plays no part.
    pub open spec fn same_rank(self, other: PlayerView) -> bool {
        self.elo == other.elo && self.age == other.age
    }
}

/// The views of a sequence of players, in the same order.
pub open spec fn player_views(players: Seq<ChessPlayer>) -> Seq<PlayerView> {
    players.map_values(|p: ChessPlayer| p@)
}

/// The view of the player that `ChessPlayer::default()` returns: rated 0,
/// aged 0, with the empty name.
pub open spec fn default_player() -> PlayerView {
    PlayerView { elo: 0, age: 0, name: Seq::empty() }
}

impl Default for ChessPlayer {
    fn default() -> (player: Self)
        ensures
            player@ == default_player(),
    {
        ChessPlayer { elo: 0, age: 0, name: String::new() }
    }
}

impl Clone for ChessPlayer {
    fn clone(&self) -> (copy: Self)
        ensures
            copy == *self,
    {
        ChessPlayer { elo: self.elo, age: self.age, name: self.name.clone() }
    }
}

impl PartialEq for ChessPlayer {
    fn eq(&self, other: &Self) -> (same: bool) {
        self.elo == other.elo && self.age == other.age && self.name == other.name
    }
}

impl Eq for ChessPlayer {

}

impl PartialEqSpecImpl for ChessPlayer {
    open spec fn obeys_eq_spec() -> bool {
        true
    }

    /// Two players are equal when all three attributes are.
    open spec fn eq_spec(&self, other: &Self) -> bool {
        self@ == other@
    }
}

} // verus!
