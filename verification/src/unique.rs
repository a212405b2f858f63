//! Collapsing repeated entries of a sequence while keeping first occurrences
//! in place.

use vstd::prelude::*;
use crate::player::{player_views, ChessPlayer, PlayerView};

verus! {

/// `s` with every entry that already occurred earlier removed. What remains
/// keeps the order in which it first appeared.
pub open spec fn without_repeats<A>(s: Seq<A>) -> Seq<A>
    decreases s.len(),
{
    if s.len() == 0 {
        s
    } else {
        let kept = without_repeats(s.drop_last());
        if kept.contains(s.last()) {
            kept
        } else {
            kept.push(s.last())
        }
    }
}

/// `without_repeats` keeps exactly the values that occur in `s`, each once.
pub proof fn lemma_without_repeats<A>(s: Seq<A>)
    ensures
        without_repeats(s).no_duplicates(),
        without_repeats(s).len() <= s.len(),
        forall|a: A| without_repeats(s).contains(a) <==> s.contains(a),
    decreases s.len(),
{
    if s.len() > 0 {
        let front = s.drop_last();
        let kept = without_repeats(front);
        lemma_without_repeats(front);
        let all = without_repeats(s);
        assert(front.len() == s.len() - 1);
        assert forall|a: A| all.contains(a) <==> s.contains(a) by {
            assert(kept.contains(a) <==> front.contains(a));
            if s.contains(a) {
                let i = choose|i: int| 0 <= i < s.len() && s[i] == a;
                if i < s.len() - 1 {
                    assert(front[i] == a);
                    assert(front.contains(a));
                }
                if kept.contains(a) {
                    let k = choose|k: int| 0 <= k < kept.len() && kept[k] == a;
                    assert(all[k] == a);
                } else {
                    assert(a == s.last());
                    assert(all[all.len() - 1] == a);
                }
            }
            if all.contains(a) {
                let k = choose|k: int| 0 <= k < all.len() && all[k] == a;
                if k < kept.len() {
                    assert(kept[k] == a);
                    assert(kept.contains(a));
                    let i = choose|i: int| 0 <= i < front.len() && front[i] == a;
                    assert(s[i] == a);
                } else {
                    assert(s[s.len() - 1] == a);
                }
            }
        }
    }
}

/// A sequence in which nothing repeats is left as it is.
pub proof fn lemma_without_repeats_of_distinct<A>(s: Seq<A>)
    requires
        s.no_duplicates(),
    ensures
        without_repeats(s) == s,
    decreases s.len(),
{
    if s.len() > 0 {
        let front = s.drop_last();
        lemma_without_repeats_of_distinct(front);
        if front.contains(s.last()) {
            let i = choose|i: int| 0 <= i < front.len() && front[i] == s.last();
            assert(s[i] == s[s.len() - 1]);
        }
        assert(front.push(s.last()) =~= s);
    }
}

/// Whether some entry of `players` has the view `wanted`.
pub(crate) fn holds_player(players: &Vec<ChessPlayer>, wanted: &ChessPlayer) -> (found: bool)
    ensures
        found == player_views(players@).contains(wanted@),
{
    let ghost views = player_views(players@);
    let mut i: usize = 0;
    while i < players.len()
        invariant
            i <= players.len(),
            views == player_views(players@),
            forall|k: int| 0 <= k < i ==> views[k] != wanted@,
        decreases players.len() - i,
    {
        if players[i] == *wanted {
            assert(views[i as int] == wanted@);
            return true;
        }
        i += 1;
    }
    false
}

/// A copy of `players` in which each player, compared by Elo, age and name,
/// is kept only where it first occurs.
pub(crate) fn distinct_players(players: &Vec<ChessPlayer>) -> (kept: Vec<ChessPlayer>)
    ensures
        player_views(kept@) == without_repeats(player_views(players@)),
{
    let ghost views = player_views(players@);
    let mut kept: Vec<ChessPlayer> = Vec::new();
    let mut i: usize = 0;
    assert(views.take(0) =~= Seq::<PlayerView>::empty());
    while i < players.len()
        invariant
            i <= players.len(),
            views == player_views(players@),
            player_views(kept@) == without_repeats(views.take(i as int)),
        decreases players.len() - i,
    {
        let ghost before = player_views(kept@);
        assert(views.take(i + 1).drop_last() =~= views.take(i as int));
        assert(views.take(i + 1).last() == players[i as int]@);
        if !holds_player(&kept, &players[i]) {
            kept.push(players[i].clone());
            assert(player_views(kept@) =~= before.push(players[i as int]@));
        }
        i += 1;
    }
    assert(views.take(i as int) =~= views);
    kept
}

} // verus!
