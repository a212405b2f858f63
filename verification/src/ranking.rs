//! The forecast: a left-to-right fold of the player list into a champion and
//! the group of players tied with that champion.

use vstd::prelude::*;
use crate::helpers::{are_equal_players, is_stronger, is_younger};
use crate::laws::lemma_forecast_invariant;
use crate::player::{default_player, player_views, ChessPlayer, PlayerView};
use crate::unique::{distinct_players, without_repeats};

verus! {

/// What a forecast is in contracts.
pub struct PronosticsView {
    pub champion: PlayerView,
    pub possible_champions: Seq<PlayerView>,
}

/// The outcome of a forecast: the current champion, and the players recorded
/// as tied with that champion. The tie group is a set kept in a vector: no
/// player occurs in it twice, and its order carries no meaning beyond that of
/// first appearance.
#[derive(Debug)]
pub struct Pronostics {
    pub champion: ChessPlayer,
    pub possible_champions: Vec<ChessPlayer>,
}

impl View for Pronostics {
    type V = PronosticsView;

    open spec fn view(&self) -> PronosticsView {
        PronosticsView {
            champion: self.champion@,
            possible_champions: player_views(self.possible_champions@),
        }
    }
}

impl PronosticsView {
    /// What a tie group always looks like: nobody is listed twice, every
    /// member has the champion's Elo and age, and a group that is not empty
    /// lists the champion.
    pub open spec fn well_formed(self) -> bool {
        &&& self.possible_champions.no_duplicates()
        &&& forall|i: int|
            0 <= i < self.possible_champions.len() ==> (
            #[trigger] self.possible_champions[i]).same_rank(self.champion)
        &&& self.possible_champions.len() > 0 ==> self.possible_champions.contains(self.champion)
    }
}

/// The forecast before any player has been seen: the default player as
/// champion and nobody tied.
pub open spec fn initial_forecast() -> PronosticsView {
    PronosticsView { champion: default_player(), possible_champions: Seq::empty() }
}

/// Whether some member of the tie group fails to be strictly stronger than
/// `player`.
pub open spec fn challenges(group: Seq<PlayerView>, player: PlayerView) -> bool {
    exists|i: int| 0 <= i < group.len() && !(#[trigger] group[i]).stronger_than(player)
}

/// The forecast after one more player. The cases are tried in this order:
///
/// 1. A tie group exists and the player is at least as strong as one of its
///    members: the player becomes the only champion and the group is
///    dissolved. A newcomer of the group's own Elo and age dissolves it too.
/// 2. The player has the champion's Elo and age: champion and player both
///    join the tie group, which keeps each distinct player once.
/// 3. The champion is not strictly stronger: the player takes over, whether
///    or not the champion is the younger of the two.
/// 4. Otherwise the champion is strictly stronger and nothing changes.
pub open spec fn next_forecast(current: PronosticsView, player: PlayerView) -> PronosticsView {
    if challenges(current.possible_champions, player) {
        PronosticsView { champion: player, possible_champions: Seq::empty() }
    } else if current.champion.same_rank(player) {
        PronosticsView {
            champion: current.champion,
            possible_champions: without_repeats(
                current.possible_champions.push(current.champion).push(player),
            ),
        }
    } else if !current.champion.stronger_than(player) {
        PronosticsView { champion: player, possible_champions: current.possible_champions }
    } else {
        current
    }
}

/// The forecast for a whole list: `next_forecast` applied to each player in
/// turn, starting from `initial_forecast`.
pub open spec fn forecast(players: Seq<PlayerView>) -> PronosticsView
    decreases players.len(),
{
    if players.len() == 0 {
        initial_forecast()
    } else {
        next_forecast(forecast(players.drop_last()), players.last())
    }
}

impl Default for Pronostics {
    fn default() -> (pronostics: Self)
        ensures
            pronostics@ == initial_forecast(),
            pronostics@.well_formed(),
    {
        let pronostics = Pronostics {
            champion: ChessPlayer::default(),
            possible_champions: Vec::new(),
        };
        assert(pronostics@.possible_champions =~= Seq::empty());
        pronostics
    }
}

/// Whether some member of `group` is not strictly stronger than `player`.
fn is_challenged(group: &Vec<ChessPlayer>, player: &ChessPlayer) -> (challenged: bool)
    ensures
        challenged == challenges(player_views(group@), player@),
{
    let ghost views = player_views(group@);
    let mut i: usize = 0;
    while i < group.len()
        invariant
            i <= group.len(),
            views == player_views(group@),
            forall|k: int| 0 <= k < i ==> (#[trigger] views[k]).stronger_than(player@),
        decreases group.len() - i,
    {
        if !is_stronger(&group[i], player) {
            assert(!views[i as int].stronger_than(player@));
            return true;
        }
        i += 1;
    }
    false
}

/// Forecasts the champion of `player_list`.
///
/// The list is read once, front to back, and each player updates the
/// forecast as `next_forecast` says. An empty list gives the default player
/// as champion and an empty tie group.
pub fn get_pronostics(player_list: Vec<ChessPlayer>) -> (pronostics: Pronostics)
    ensures
        pronostics@ == forecast(player_views(player_list@)),
        player_list@.len() == 0 ==> pronostics@ == initial_forecast(),
        pronostics@.well_formed(),
{
    let ghost players = player_views(player_list@);
    let mut pronostics = Pronostics::default();
    let mut i: usize = 0;
    assert(players.take(0) =~= Seq::<PlayerView>::empty());
    while i < player_list.len()
        invariant
            i <= player_list.len(),
            players == player_views(player_list@),
            pronostics@ == forecast(players.take(i as int)),
        decreases player_list.len() - i,
    {
        let player = &player_list[i];
        let ghost before = pronostics@;
        assert(players.take(i + 1).drop_last() =~= players.take(i as int));
        assert(players.take(i + 1).last() == player@);
        if is_challenged(&pronostics.possible_champions, player) {
            pronostics.champion = player.clone();
            pronostics.possible_champions = Vec::new();
            assert(pronostics@.possible_champions =~= Seq::empty());
        } else if are_equal_players(&pronostics.champion, player) {
            pronostics.possible_champions.push(pronostics.champion.clone());
            pronostics.possible_champions.push(player.clone());
            assert(player_views(pronostics.possible_champions@) =~= before.possible_champions.push(
                before.champion,
            ).push(player@));
            pronostics.possible_champions = distinct_players(&pronostics.possible_champions);
        } else if !is_stronger(&pronostics.champion, player) && !is_younger(
            &pronostics.champion,
            player,
        ) {
            // A champion that is neither stronger nor younger gives way.
            pronostics.champion = player.clone();
        } else if !is_stronger(&pronostics.champion, player) {
            // So does a younger champion that is not stronger.
            pronostics.champion = player.clone();
        }
        assert(pronostics@ == next_forecast(before, player@));
        i += 1;
    }
    assert(players.take(i as int) =~= players);
    proof {
        lemma_forecast_invariant(players);
    }
    pronostics
}

} // verus!
