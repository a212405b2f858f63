//! What holds of every forecast, proved over the mathematical model.

use vstd::prelude::*;
use crate::player::{default_player, PlayerView};
use crate::ranking::{challenges, forecast, initial_forecast, next_forecast, PronosticsView};
use crate::unique::{lemma_without_repeats, without_repeats};

verus! {

/// The forecast for an empty list is the initial one: the default player as
/// champion, nobody tied.
pub proof fn lemma_forecast_of_nobody()
    ensures
        forecast(Seq::<PlayerView>::empty()) == initial_forecast(),
        forecast(Seq::<PlayerView>::empty()).champion == default_player(),
        forecast(Seq::<PlayerView>::empty()).possible_champions.len() == 0,
{
}

/// Appending a player to the list advances the forecast by one step.
pub proof fn lemma_forecast_push(players: Seq<PlayerView>, player: PlayerView)
    ensures
        forecast(players.push(player)) == next_forecast(forecast(players), player),
{
    assert(players.push(player).drop_last() =~= players);
}

/// A well-formed forecast whose tie group is not empty is challenged by
/// exactly the players that are at least as strong as the champion.
pub proof fn lemma_challenges_by_elo(current: PronosticsView, player: PlayerView)
    requires
        current.well_formed(),
    ensures
        challenges(current.possible_champions, player) <==> current.possible_champions.len() > 0
            && player.elo >= current.champion.elo,
{
    let group = current.possible_champions;
    if group.len() > 0 && player.elo >= current.champion.elo {
        assert(!group[0].stronger_than(player));
    }
}

/// When a player ties with the champion, the tie group afterwards holds
/// everybody it held before, the champion and the player, and nobody else;
/// the champion stays.
pub proof fn lemma_tie_keeps_everybody(current: PronosticsView, player: PlayerView)
    requires
        !challenges(current.possible_champions, player),
        current.champion.same_rank(player),
    ensures
        next_forecast(current, player).champion == current.champion,
        next_forecast(current, player).possible_champions.no_duplicates(),
        forall|p: PlayerView|
            next_forecast(current, player).possible_champions.contains(p)
                <==> current.possible_champions.contains(p) || p == current.champion || p
                == player,
{
    let group = current.possible_champions;
    let joined = group.push(current.champion).push(player);
    let tied = next_forecast(current, player).possible_champions;
    lemma_without_repeats(joined);
    assert forall|p: PlayerView| tied.contains(p) <==> group.contains(p) || p == current.champion
        || p == player by {
        assert(tied.contains(p) <==> joined.contains(p));
        assert(joined[group.len() as int] == current.champion);
        assert(joined[group.len() as int + 1] == player);
        if group.contains(p) {
            let k = choose|k: int| 0 <= k < group.len() && group[k] == p;
            assert(joined[k] == p);
        }
        if joined.contains(p) {
            let k = choose|k: int| 0 <= k < joined.len() && joined[k] == p;
            if k < group.len() {
                assert(group[k] == p);
            }
        }
    }
}

/// One step keeps a forecast well formed.
pub proof fn lemma_step_well_formed(current: PronosticsView, player: PlayerView)
    requires
        current.well_formed(),
    ensures
        next_forecast(current, player).well_formed(),
{
    let next = next_forecast(current, player);
    let group = current.possible_champions;
    lemma_challenges_by_elo(current, player);
    if challenges(group, player) {
    } else if current.champion.same_rank(player) {
        let joined = group.push(current.champion).push(player);
        lemma_without_repeats(joined);
        assert(joined[group.len() as int] == current.champion);
        assert(joined.contains(current.champion));
        let tied = next.possible_champions;
        assert forall|i: int| 0 <= i < tied.len() implies (#[trigger] tied[i]).same_rank(
            next.champion,
        ) by {
            let member = tied[i];
            assert(tied.contains(member));
            assert(joined.contains(member));
            let k = choose|k: int| 0 <= k < joined.len() && joined[k] == member;
            if k < group.len() {
                assert(joined[k] == group[k]);
            }
        }
    } else if !current.champion.stronger_than(player) {
        assert(group.len() == 0);
    }
}

/// What holds of the forecast for every list of players.
///
/// * The tie group is well formed: nobody is listed twice, every member has
///   the champion's Elo and age, and a group that is not empty lists the
///   champion.
/// * The tie group never holds more than two players: a third player of the
///   same Elo dissolves the group instead of joining it.
/// * No player of the list is strictly stronger than the champion.
/// * The champion of a list that is not empty is one of its players. The one
///   exception is a list of a single player rated 0 and aged 0: that player
///   ties with the default player, which stays champion.
pub proof fn lemma_forecast_invariant(players: Seq<PlayerView>)
    ensures
        forecast(players).well_formed(),
        forecast(players).possible_champions.len() <= 2,
        forall|k: int|
            0 <= k < players.len() ==> !(#[trigger] players[k]).stronger_than(
                forecast(players).champion,
            ),
        players.len() > 0 ==> players.contains(forecast(players).champion) || (players.len() == 1
            && players[0].same_rank(default_player()) && forecast(players) == (PronosticsView {
            champion: default_player(),
            possible_champions: without_repeats(seq![default_player(), players[0]]),
        })),
    decreases players.len(),
{
    if players.len() > 0 {
        let front = players.drop_last();
        let player = players.last();
        let before = forecast(front);
        let after = forecast(players);
        lemma_forecast_invariant(front);
        lemma_step_well_formed(before, player);
        lemma_challenges_by_elo(before, player);
        assert(after == next_forecast(before, player));
        assert(players[players.len() - 1] == player);
        assert forall|k: int| 0 <= k < players.len() implies !(#[trigger] players[k]).stronger_than(
            after.champion,
        ) by {
            if k < front.len() {
                assert(front[k] == players[k]);
            }
        }
        if front.len() > 0 && front.contains(before.champion) {
            let k = choose|k: int| 0 <= k < front.len() && front[k] == before.champion;
            assert(players[k] == before.champion);
        }
        if front.len() == 1 && !front.contains(before.champion) {
            lemma_without_repeats(seq![default_player(), front[0]]);
            assert(seq![default_player(), front[0]][0] == default_player());
            assert(before.possible_champions.len() > 0);
        }
        if challenges(before.possible_champions, player) {
        } else if before.champion.same_rank(player) {
            assert(before.possible_champions.len() == 0);
            let joined = before.possible_champions.push(before.champion).push(player);
            lemma_without_repeats(joined);
            assert(joined =~= seq![before.champion, player]);
        }
    }
}

/// The champion of a list that is not empty is one of its players; so a
/// champion that equals the default player was not made up: the default
/// player stands in the list, and nobody in the list is stronger.
///
/// Left out is the list of a single player rated 0 and aged 0 under a name:
/// there the default player is champion without being in the list.
pub proof fn lemma_champion_comes_from_list(players: Seq<PlayerView>)
    requires
        players.len() > 0,
        !(players.len() == 1 && players[0].same_rank(default_player()) && players[0]
            != default_player()),
    ensures
        players.contains(forecast(players).champion),
        forecast(players).champion == default_player() ==> players.contains(default_player())
            && forall|k: int|
            0 <= k < players.len() ==> !(#[trigger] players[k]).stronger_than(default_player()),
{
    lemma_forecast_invariant(players);
    if players.len() == 1 && players[0] == default_player() {
        assert(players.contains(default_player()));
    }
}

/// Feeding players to the forecast never lists anybody twice among the tied:
/// no two entries of the tie group agree in Elo, age and name.
pub proof fn lemma_tie_group_has_no_repeats(players: Seq<PlayerView>)
    ensures
        forecast(players).possible_champions.no_duplicates(),
        forall|i: int, j: int|
            0 <= i < j < forecast(players).possible_champions.len()
                ==> forecast(players).possible_champions[i] != forecast(
                players,
            ).possible_champions[j],
{
    lemma_forecast_invariant(players);
}

/// A player strictly weaker than the champion changes nothing.
pub proof fn lemma_weaker_changes_nothing(players: Seq<PlayerView>, player: PlayerView)
    requires
        forecast(players).champion.stronger_than(player),
    ensures
        forecast(players.push(player)) == forecast(players),
{
    lemma_forecast_push(players, player);
    lemma_forecast_invariant(players);
    lemma_challenges_by_elo(forecast(players), player);
}

/// While a tie group stands, a player at least as strong as the champion
/// becomes the only champion and the group is dissolved, also where the
/// player has the very Elo and age of the tied.
pub proof fn lemma_challenger_dissolves_tie(players: Seq<PlayerView>, player: PlayerView)
    requires
        forecast(players).possible_champions.len() > 0,
        !forecast(players).champion.stronger_than(player),
    ensures
        forecast(players.push(player)) == (PronosticsView {
            champion: player,
            possible_champions: Seq::empty(),
        }),
{
    lemma_forecast_push(players, player);
    lemma_forecast_invariant(players);
    lemma_challenges_by_elo(forecast(players), player);
}

/// A player at least as strong as everybody before, and of nobody's Elo and
/// age, becomes the only champion. At the head of the list the player to
/// differ from is the default player.
pub proof fn lemma_newcomer_takes_over(players: Seq<PlayerView>, player: PlayerView)
    requires
        forall|k: int|
            0 <= k < players.len() ==> !(#[trigger] players[k]).stronger_than(player)
                && !players[k].same_rank(player),
        players.len() == 0 ==> !default_player().same_rank(player),
    ensures
        forecast(players.push(player)) == (PronosticsView {
            champion: player,
            possible_champions: Seq::empty(),
        }),
{
    let before = forecast(players);
    lemma_forecast_push(players, player);
    lemma_forecast_invariant(players);
    lemma_challenges_by_elo(before, player);
    if players.len() > 0 {
        if players.contains(before.champion) {
            let k = choose|k: int| 0 <= k < players.len() && players[k] == before.champion;
            assert(!players[k].stronger_than(player) && !players[k].same_rank(player));
        } else {
            lemma_without_repeats(seq![default_player(), players[0]]);
            assert(seq![default_player(), players[0]][0] == default_player());
            assert(before.possible_champions.len() > 0);
        }
    }
    if !challenges(before.possible_champions, player) {
        assert(before.possible_champions =~= Seq::empty());
    }
}

/// With one player strictly stronger than every other, that player is the
/// champion and nobody is tied, wherever in the list the player stands.
///
/// Left out is a strongest player rated 0 and aged 0, who can only stand
/// alone in the list and ties with the default player.
pub proof fn lemma_clear_winner(players: Seq<PlayerView>, best: int)
    requires
        0 <= best < players.len(),
        forall|k: int|
            0 <= k < players.len() && k != best ==> players[best].stronger_than(
                #[trigger] players[k],
            ),
        !players[best].same_rank(default_player()),
    ensures
        forecast(players).champion == players[best],
        forecast(players).possible_champions.len() == 0,
{
    lemma_clear_winner_upto(players, best, players.len() as int);
    assert(players.take(players.len() as int) =~= players);
}

/// `lemma_clear_winner` for the first `upto` players, `best` among them.
proof fn lemma_clear_winner_upto(players: Seq<PlayerView>, best: int, upto: int)
    requires
        0 <= best < upto <= players.len(),
        forall|k: int|
            0 <= k < players.len() && k != best ==> players[best].stronger_than(
                #[trigger] players[k],
            ),
        !players[best].same_rank(default_player()),
    ensures
        forecast(players.take(upto)) == (PronosticsView {
            champion: players[best],
            possible_champions: Seq::empty(),
        }),
    decreases upto,
{
    let front = players.take(upto - 1);
    assert(players.take(upto) =~= front.push(players[upto - 1]));
    if upto == best + 1 {
        assert forall|k: int| 0 <= k < front.len() implies !(#[trigger] front[k]).stronger_than(
            players[best],
        ) && !front[k].same_rank(players[best]) by {
            assert(players[best].stronger_than(players[k]));
        }
        lemma_newcomer_takes_over(front, players[best]);
    } else {
        lemma_clear_winner_upto(players, best, upto - 1);
        lemma_weaker_changes_nothing(front, players[upto - 1]);
    }
}

/// Two players of the same Elo and age at the top of the list end up tied:
/// the earlier one is champion, and the tie group holds the two of them,
/// once if they also agree in name.
///
/// The pair stands at `first` and `second`. Before `first` nobody is
/// stronger or of the pair's Elo and age; every other player from `first` on
/// is strictly weaker. A player as strong as the pair between or behind the
/// two would take the title alone, so such lists are left out, as is a pair
/// rated 0 and aged 0 at the head of the list, which ties with the default
/// player first.
pub proof fn lemma_top_pair_ties(players: Seq<PlayerView>, first: int, second: int)
    requires
        0 <= first < second < players.len(),
        players[first].same_rank(players[second]),
        forall|k: int|
            0 <= k < first ==> !(#[trigger] players[k]).stronger_than(players[first])
                && !players[k].same_rank(players[first]),
        forall|k: int|
            first < k < players.len() && k != second ==> players[first].stronger_than(
                #[trigger] players[k],
            ),
        first == 0 ==> !players[first].same_rank(default_player()),
    ensures
        forecast(players).champion == players[first],
        forecast(players).possible_champions == without_repeats(
            seq![players[first], players[second]],
        ),
        forall|p: PlayerView|
            forecast(players).possible_champions.contains(p) <==> p == players[first] || p
                == players[second],
{
    lemma_top_pair_ties_upto(players, first, second, players.len() as int);
    assert(players.take(players.len() as int) =~= players);
    let pair = seq![players[first], players[second]];
    lemma_without_repeats(pair);
    let tied = forecast(players).possible_champions;
    assert(tied == without_repeats(pair));
    assert forall|p: PlayerView| tied.contains(p) <==> p == players[first] || p
        == players[second] by {
        assert(tied.contains(p) <==> pair.contains(p));
        assert(pair[0] == players[first] && pair[1] == players[second]);
    }
}

/// `lemma_top_pair_ties` for the first `upto` players, `first` among them:
/// until `second` has been read the earlier player is champion alone.
proof fn lemma_top_pair_ties_upto(players: Seq<PlayerView>, first: int, second: int, upto: int)
    requires
        0 <= first < second < players.len(),
        first < upto <= players.len(),
        players[first].same_rank(players[second]),
        forall|k: int|
            0 <= k < first ==> !(#[trigger] players[k]).stronger_than(players[first])
                && !players[k].same_rank(players[first]),
        forall|k: int|
            first < k < players.len() && k != second ==> players[first].stronger_than(
                #[trigger] players[k],
            ),
        first == 0 ==> !players[first].same_rank(default_player()),
    ensures
        forecast(players.take(upto)) == (PronosticsView {
            champion: players[first],
            possible_champions: if upto <= second {
                Seq::empty()
            } else {
                without_repeats(seq![players[first], players[second]])
            },
        }),
    decreases upto,
{
    let front = players.take(upto - 1);
    let player = players[upto - 1];
    assert(players.take(upto) =~= front.push(player));
    if upto == first + 1 {
        assert forall|k: int| 0 <= k < front.len() implies !(#[trigger] front[k]).stronger_than(
            players[first],
        ) && !front[k].same_rank(players[first]) by {
            assert(front[k] == players[k]);
        }
        lemma_newcomer_takes_over(front, players[first]);
    } else {
        lemma_top_pair_ties_upto(players, first, second, upto - 1);
        if upto == second + 1 {
            lemma_forecast_push(front, player);
            let before = forecast(front);
            assert(before.possible_champions.push(before.champion).push(player)
                =~= seq![players[first], players[second]]);
        } else {
            lemma_weaker_changes_nothing(front, player);
        }
    }
}

} // verus!
