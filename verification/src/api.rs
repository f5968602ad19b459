//! The choice of the active player's creep score among the players that the
//! game's live client data lists.
use vstd::prelude::*;
use crate::text::str_eq;

verus! {

/// What the live client data says of one player: the summoner name and the
/// creep score, each where it is present with the expected type.
pub struct PlayerScore {
    pub summoner_name: Option<String>,
    pub creep_score: Option<i64>,
}

impl View for PlayerScore {
    type V = (Option<Seq<char>>, Option<i64>);

    open spec fn view(&self) -> (Option<Seq<char>>, Option<i64>) {
        (
            match self.summoner_name {
                Some(s) => Some(s@),
                None => None,
            },
            self.creep_score,
        )
    }
}

/// The creep score of the first player named `name`: `None` when no player
/// has that name, or when the first that has it shows no creep score.
pub open spec fn creep_score_of(players: Seq<(Option<Seq<char>>, Option<i64>)>, name: Seq<char>) -> Option<i64>
    decreases players.len(),
{
    if players.len() == 0 {
        None
    } else if players[0].0 == Some(name) {
        players[0].1
    } else {
        creep_score_of(players.drop_first(), name)
    }
}

/// Finds the creep score of the player called `summoner_name` (the active
/// player) in the list of all players.
pub fn find_creep_score(summoner_name: &str, players: &Vec<PlayerScore>) -> (cs: Option<i64>)
    ensures
        cs == creep_score_of(players@.map_values(|p: PlayerScore| p@), summoner_name@),
{
    let ghost all = players@.map_values(|p: PlayerScore| p@);
    let mut i: usize = 0;
    assert(all.skip(0) =~= all);
    while i < players.len()
        invariant
            i <= players@.len(),
            all == players@.map_values(|p: PlayerScore| p@),
            creep_score_of(all, summoner_name@) == creep_score_of(all.skip(i as int), summoner_name@),
        decreases players@.len() - i,
    {
        let player = &players[i];
        assert(all.skip(i as int)[0] == player@);
        assert(all.skip(i as int).drop_first() =~= all.skip(i + 1));
        let same = match &player.summoner_name {
            Some(name) => str_eq(name.as_str(), summoner_name),
            None => false,
        };
        if same {
            return player.creep_score;
        }
        i += 1;
    }
    None
}

/// The score found is that of the first player bearing the name, wherever in
/// the list that player stands (the last place included): if player `i` has
/// the name and none before it has, the result is player `i`'s score.
pub proof fn lemma_first_named_player_decides(
    players: Seq<(Option<Seq<char>>, Option<i64>)>,
    name: Seq<char>,
    i: int,
)
    requires
        0 <= i < players.len(),
        players[i].0 == Some(name),
        forall|j: int| 0 <= j < i ==> players[j].0 != Some(name),
    ensures
        creep_score_of(players, name) == players[i].1,
    decreases i,
{
    if i > 0 {
        let rest = players.drop_first();
        assert(players[0].0 != Some(name));
        assert forall|j: int| 0 <= j < i - 1 implies rest[j].0 != Some(name) by {
            assert(rest[j] == players[j + 1]);
        }
        assert(rest[i - 1] == players[i]);
        lemma_first_named_player_decides(rest, name, i - 1);
    }
}

/// Where no player bears the name there is no score.
pub proof fn lemma_unnamed_player_has_no_score(players: Seq<(Option<Seq<char>>, Option<i64>)>, name: Seq<char>)
    requires
        forall|j: int| 0 <= j < players.len() ==> players[j].0 != Some(name),
    ensures
        creep_score_of(players, name) is None,
    decreases players.len(),
{
    if players.len() > 0 {
        let rest = players.drop_first();
        assert(players[0].0 != Some(name));
        assert forall|j: int| 0 <= j < rest.len() implies rest[j].0 != Some(name) by {
            assert(rest[j] == players[j + 1]);
        }
        lemma_unnamed_player_has_no_score(rest, name);
    }
}

} // verus!
