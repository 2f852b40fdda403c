//! A game in progress: the teams as they were dealt, and the history of the
//! attacks resolved since.

use crate::actions::attack::{Attack, AttackOutcome, OutcomeView};
use crate::actions::resolution::lemma_resolve_wf;
use crate::gamestate::players::{
    dealt_by, held_by, name_views, names_left, roster_names, PName, Player,
    PlayerAttributePool, PlayersByName,
};
use crate::gamestate::teams::{LedgerView, TName, TeamsByName};
use crate::gamestate::with_history::{GameHistory, HistoryNavigationErr, HistoryView};
use crate::random::shuffle;
use vstd::prelude::*;

verus! {

/// How many of `players` players the team at the index `k` of `teams` teams
/// gets: every team gets an equal share, and the first teams get one more each
/// of those that are left over.
pub open spec fn team_size(players: int, teams: int, k: int) -> int {
    players / teams + if k < players % teams {
        1int
    } else {
        0int
    }
}

/// How many players come before those of the team at the index `k`.
pub open spec fn team_start(players: int, teams: int, k: int) -> int
    decreases k,
{
    if k <= 0 {
        0
    } else {
        team_start(players, teams, k - 1) + team_size(players, teams, k - 1)
    }
}

/// Where the shares of the teams begin: each team's share begins where the one
/// before ends, no share reaches past the players, and the shares of all teams
/// are all the players.
pub proof fn lemma_team_start(players: int, teams: int, k: int)
    requires
        players >= 0,
        teams > 0,
        0 <= k <= teams,
    ensures
        team_start(players, teams, k) == k * (players / teams) + if k < players % teams {
            k
        } else {
            players % teams
        },
        0 <= team_start(players, teams, k) <= players,
        k < teams ==> team_start(players, teams, k) + team_size(players, teams, k) <= players,
        team_start(players, teams, teams) == players,
    decreases teams - k,
{
    let base = players / teams;
    let extra = players % teams;
    lemma_team_start_value(players, teams, k);
    lemma_team_start_value(players, teams, teams);
    assert(players == teams * base + extra) by (nonlinear_arith)
        requires
            teams > 0,
            base == players / teams,
            extra == players % teams,
    ;
    assert(base >= 0 && 0 <= extra < teams) by (nonlinear_arith)
        requires
            teams > 0,
            players >= 0,
            base == players / teams,
            extra == players % teams,
    ;
    assert(k * base <= teams * base) by (nonlinear_arith)
        requires
            0 <= k <= teams,
            base >= 0,
    ;
    assert(0 <= k * base) by (nonlinear_arith)
        requires
            0 <= k,
            base >= 0,
    ;
    if k < teams {
        lemma_team_start_value(players, teams, k + 1);
        assert((k + 1) * base <= teams * base) by (nonlinear_arith)
            requires
                0 <= k + 1 <= teams,
                base >= 0,
        ;
    }
}

proof fn lemma_team_start_value(players: int, teams: int, k: int)
    requires
        teams > 0,
        0 <= k,
    ensures
        team_start(players, teams, k) == k * (players / teams) + if k < players % teams {
            k
        } else if players % teams >= 0 {
            players % teams
        } else {
            0
        },
    decreases k,
{
    let base = players / teams;
    if k > 0 {
        lemma_team_start_value(players, teams, k - 1);
        assert(k * base == (k - 1) * base + base) by (nonlinear_arith);
    } else {
        assert(0 * base == 0) by (nonlinear_arith);
        assert(players % teams >= 0) by (nonlinear_arith)
            requires
                teams > 0,
        ;
    }
}

/// Whether `ledger` holds the players called `names` dealt to the teams called
/// `team_names`: the teams stand in the order of their names, none has won
/// anything, each team holds its share of the names, in their order, and each
/// player is made for the team that holds it.
pub open spec fn dealt(ledger: LedgerView, names: Seq<Seq<char>>, team_names: Seq<Seq<char>>) -> bool {
    &&& ledger.teams.len() == team_names.len()
    &&& forall|k: int|
        0 <= k < team_names.len() ==> {
            &&& (#[trigger] ledger.teams[k]).name == team_names[k]
            &&& ledger.teams[k].team.honor == 0
            &&& roster_names(ledger.teams[k].team.players) == names.subrange(
                team_start(names.len() as int, team_names.len() as int, k),
                team_start(names.len() as int, team_names.len() as int, k) + team_size(
                    names.len() as int,
                    team_names.len() as int,
                    k,
                ),
            )
            &&& forall|i: int|
                0 <= i < ledger.teams[k].team.players.len() ==> (
                #[trigger] ledger.teams[k].team.players[i]).team == team_names[k]
        }
}

/// Teams are as even as can be: every team has the whole part of players by
/// teams, or one more; the teams with one more are the first ones, as many as
/// players are left over.
pub proof fn lemma_dealt_sizes(
    ledger: LedgerView,
    names: Seq<Seq<char>>,
    team_names: Seq<Seq<char>>,
    k: int,
)
    requires
        dealt(ledger, names, team_names),
        0 <= k < team_names.len(),
    ensures
        ledger.teams[k].team.players.len() == team_size(
            names.len() as int,
            team_names.len() as int,
            k,
        ),
        ledger.teams[k].team.players.len() == names.len() / team_names.len()
            || ledger.teams[k].team.players.len() == names.len() / team_names.len() + 1,
        ledger.teams[k].team.players.len() == names.len() / team_names.len() + 1 <==> k
            < names.len() % team_names.len(),
{
    let n = names.len() as int;
    let t = team_names.len() as int;
    lemma_team_start(n, t, k);
    assert(ledger.teams[k].name == team_names[k]);
    assert(roster_names(ledger.teams[k].team.players).len() == team_size(n, t, k));
}

/// The teams that have one more player than the others are as many as players
/// are left over when the players are divided by the teams.
pub proof fn lemma_larger_teams_count(
    ledger: LedgerView,
    names: Seq<Seq<char>>,
    team_names: Seq<Seq<char>>,
)
    requires
        dealt(ledger, names, team_names),
        team_names.len() > 0,
    ensures
        Set::new(
            |k: int|
                0 <= k < ledger.teams.len() && ledger.teams[k].team.players.len() == names.len()
                    / team_names.len() + 1,
        ).len() == names.len() % team_names.len(),
{
    let n = names.len() as int;
    let t = team_names.len() as int;
    let larger = Set::new(
        |k: int|
            0 <= k < ledger.teams.len() && ledger.teams[k].team.players.len() == names.len()
                / team_names.len() + 1,
    );
    assert(0 <= n % t < t) by (nonlinear_arith)
        requires
            t > 0,
            n >= 0,
    ;
    assert forall|k: int| larger.contains(k) <==> 0 <= k < n % t by {
        if 0 <= k < t {
            lemma_dealt_sizes(ledger, names, team_names, k);
        }
    }
    assert(larger =~= vstd::set_lib::set_int_range(0, n % t));
    vstd::set_lib::lemma_int_range(0, n % t);
}

/// The teams together hold the players exactly: taken team by team, the
/// players' names are the names dealt, each once, in their order.
pub proof fn lemma_dealt_all_players(
    ledger: LedgerView,
    names: Seq<Seq<char>>,
    team_names: Seq<Seq<char>>,
)
    requires
        dealt(ledger, names, team_names),
        team_names.len() > 0,
    ensures
        roster_names(ledger.all_players()) == names,
{
    let n = names.len() as int;
    let t = team_names.len() as int;
    lemma_dealt_first(ledger, names, team_names, t);
    ledger.lemma_players_of_first(t);
    lemma_team_start(n, t, t);
    assert(names.take(n) =~= names);
}

/// However the players were shuffled, the teams together hold the players
/// that were named, each one once: none is left out, and none is dealt twice.
pub proof fn lemma_dealt_keeps_everyone(
    ledger: LedgerView,
    order: Seq<Seq<char>>,
    names: Seq<Seq<char>>,
    team_names: Seq<Seq<char>>,
)
    requires
        dealt(ledger, order, team_names),
        team_names.len() > 0,
        order.to_multiset() == names.to_multiset(),
        names.no_duplicates(),
    ensures
        roster_names(ledger.all_players()).to_multiset() == names.to_multiset(),
        roster_names(ledger.all_players()).no_duplicates(),
        roster_names(ledger.all_players()).len() == names.len(),
        forall|name: Seq<char>|
            roster_names(ledger.all_players()).contains(name) <==> names.contains(name),
{
    lemma_dealt_all_players(ledger, order, team_names);
    names.lemma_multiset_has_no_duplicates();
    order.lemma_multiset_has_no_duplicates_conv();
    vstd::seq_lib::to_multiset_len(order);
    vstd::seq_lib::to_multiset_len(names);
    assert forall|name: Seq<char>| order.contains(name) <==> names.contains(name) by {
        vstd::seq_lib::to_multiset_contains(order, name);
        vstd::seq_lib::to_multiset_contains(names, name);
    }
}

proof fn lemma_dealt_first(
    ledger: LedgerView,
    names: Seq<Seq<char>>,
    team_names: Seq<Seq<char>>,
    k: int,
)
    requires
        dealt(ledger, names, team_names),
        0 <= k <= team_names.len(),
        team_names.len() > 0,
    ensures
        roster_names(ledger.players_of_first(k)) == names.take(
            team_start(names.len() as int, team_names.len() as int, k),
        ),
    decreases k,
{
    let n = names.len() as int;
    let t = team_names.len() as int;
    if k == 0 {
        ledger.lemma_players_of_first(0);
        assert(roster_names(ledger.players_of_first(0)) =~= names.take(0));
    } else {
        lemma_dealt_first(ledger, names, team_names, k - 1);
        ledger.lemma_players_of_first(k - 1);
        lemma_team_start(n, t, k - 1);
        let before = ledger.players_of_first(k - 1);
        let roster = ledger.teams[k - 1].team.players;
        let start = team_start(n, t, k - 1);
        let size = team_size(n, t, k - 1);
        assert(ledger.teams[k - 1].name == team_names[k - 1]);
        assert(roster_names(before + roster) =~= roster_names(before) + roster_names(roster));
        assert(names.take(start) + names.subrange(start, start + size) =~= names.take(
            start + size,
        ));
    }
}

/// Dealing distinct names to teams of distinct names, each player with
/// well-formed holdings, makes a well-formed ledger.
pub proof fn lemma_dealt_wf(ledger: LedgerView, names: Seq<Seq<char>>, team_names: Seq<Seq<char>>)
    requires
        dealt(ledger, names, team_names),
        team_names.len() > 0,
        names.no_duplicates(),
        team_names.no_duplicates(),
        forall|t: int, i: int| ledger.occupied(t, i) ==> (#[trigger] ledger.at(t, i)).wf(),
    ensures
        ledger.wf(),
{
    let n = names.len() as int;
    let count = team_names.len() as int;
    assert forall|s: int, t: int| 0 <= s < t < ledger.teams.len() implies (
    #[trigger] ledger.teams[s]).name != (#[trigger] ledger.teams[t]).name by {
        assert(team_names[s] != team_names[t]);
    }
    assert forall|s: int, i: int, t: int, j: int|
        ledger.occupied(s, i) && ledger.occupied(t, j) && (#[trigger] ledger.at(s, i)).name == (
        #[trigger] ledger.at(t, j)).name implies s == t && i == j by {
        lemma_dealt_place(ledger, names, team_names, s, i);
        lemma_dealt_place(ledger, names, team_names, t, j);
        if s < t {
            lemma_team_start_monotone(n, count, s + 1, t);
        } else if t < s {
            lemma_team_start_monotone(n, count, t + 1, s);
        }
    }
}

proof fn lemma_dealt_place(
    ledger: LedgerView,
    names: Seq<Seq<char>>,
    team_names: Seq<Seq<char>>,
    t: int,
    i: int,
)
    requires
        dealt(ledger, names, team_names),
        team_names.len() > 0,
        ledger.occupied(t, i),
    ensures
        0 <= team_start(names.len() as int, team_names.len() as int, t) + i < team_start(
            names.len() as int,
            team_names.len() as int,
            t + 1,
        ) <= names.len(),
        ledger.at(t, i).name == names[team_start(names.len() as int, team_names.len() as int, t)
            + i],
{
    let n = names.len() as int;
    let count = team_names.len() as int;
    lemma_team_start(n, count, t);
    lemma_team_start(n, count, t + 1);
    assert(ledger.teams[t].name == team_names[t]);
    let roster = ledger.teams[t].team.players;
    let start = team_start(n, count, t);
    let size = team_size(n, count, t);
    assert(team_start(n, count, t + 1) == start + size);
    assert(size >= 0) by (nonlinear_arith)
        requires
            n >= 0,
            count > 0,
            size == team_size(n, count, t),
    ;
    assert(roster_names(roster) == names.subrange(start, start + size));
    assert(roster_names(roster).len() == size);
    assert(roster_names(roster)[i] == roster[i].name);
    assert(names.subrange(start, start + size)[i] == names[start + i]);
}

proof fn lemma_team_start_monotone(players: int, teams: int, j: int, k: int)
    requires
        players >= 0,
        teams > 0,
        0 <= j <= k,
    ensures
        team_start(players, teams, j) <= team_start(players, teams, k),
    decreases k - j,
{
    if j < k {
        lemma_team_start_monotone(players, teams, j, k - 1);
        assert(players / teams >= 0) by (nonlinear_arith)
            requires
                players >= 0,
                teams > 0,
        ;
    }
}

/// A game in progress.
#[derive(Debug)]
pub struct ActiveGame(GameHistory);

impl View for ActiveGame {
    type V = HistoryView;

    closed spec fn view(&self) -> HistoryView {
        self.0@
    }
}

impl ActiveGame {
    /// The history is well formed, and so is every state in it.
    pub open spec fn wf(&self) -> bool {
        self@.wf() && self@.states_wf()
    }

    /// A new game: the players are shuffled, then dealt to the teams in the
    /// order of `team_names`, each team getting an equal share and the first
    /// teams one more each of those left over. Each player is made with what
    /// `attribute_pool` gives next.
    pub fn new<P: PlayerAttributePool>(
        player_names: Vec<String>,
        team_names: Vec<String>,
        attribute_pool: P,
    ) -> (game: ActiveGame)
        requires
            team_names.len() > 0,
            name_views(team_names@).no_duplicates(),
            name_views(player_names@).no_duplicates(),
            attribute_pool.pool_wf(),
            attribute_pool.powers_left() == player_names.len(),
            attribute_pool.awaiting() =~= name_views(player_names@).to_set(),
        ensures
            game.wf(),
            game@ == HistoryView::starting_with(game@.initial),
            exists|order: Seq<Seq<char>>|
                {
                    &&& order.to_multiset() == name_views(player_names@).to_multiset()
                    &&& #[trigger] dealt(game@.initial, order, name_views(team_names@))
                },
            forall|t: int, i: int|
                game@.initial.occupied(t, i) ==> dealt_by(
                    &attribute_pool,
                    #[trigger] game@.initial.at(t, i),
                ),
    {
        let mut player_list = player_names;
        // The order of the players is left to chance.
        shuffle(&mut player_list);
        proof {
            let before = name_views(player_names@);
            let after = name_views(player_list@);
            before.lemma_multiset_has_no_duplicates();
            after.lemma_multiset_has_no_duplicates_conv();
            assert(after.to_set() =~= before.to_set()) by {
                assert forall|name: Seq<char>| after.contains(name) <==> before.contains(name) by {
                    vstd::seq_lib::to_multiset_contains(after, name);
                    vstd::seq_lib::to_multiset_contains(before, name);
                }
            }
            vstd::seq_lib::to_multiset_len(before);
            vstd::seq_lib::to_multiset_len(after);
        }
        ActiveGame::new_in_order(player_list, team_names, attribute_pool)
    }

    /// A new game with the players dealt in the order of `player_list`.
    pub fn new_in_order<P: PlayerAttributePool>(
        player_list: Vec<String>,
        team_names: Vec<String>,
        attribute_pool: P,
    ) -> (game: ActiveGame)
        requires
            team_names.len() > 0,
            name_views(team_names@).no_duplicates(),
            name_views(player_list@).no_duplicates(),
            attribute_pool.pool_wf(),
            attribute_pool.powers_left() == player_list.len(),
            attribute_pool.awaiting() =~= name_views(player_list@).to_set(),
        ensures
            game.wf(),
            game@ == HistoryView::starting_with(game@.initial),
            dealt(game@.initial, name_views(player_list@), name_views(team_names@)),
            forall|t: int, i: int|
                game@.initial.occupied(t, i) ==> dealt_by(
                    &attribute_pool,
                    #[trigger] game@.initial.at(t, i),
                ),
    {
        let mut pool = attribute_pool;
        let ghost all = name_views(player_list@);
        let ghost labels = name_views(team_names@);
        let ghost awaited = pool.awaiting();
        let ghost n = player_list.len() as int;
        let ghost count = team_names.len() as int;
        let players_per_team = player_list.len() / team_names.len();
        let mut extra_players = player_list.len() % team_names.len();
        let mut teams = TeamsByName::default();
        let mut next: usize = 0;
        let mut k: usize = 0;
        proof {
            assert(names_left(awaited, all.take(0)) =~= awaited);
        }
        while k < team_names.len()
            invariant
                k <= team_names.len(),
                team_names.len() > 0,
                n == player_list.len(),
                count == team_names.len(),
                all == name_views(player_list@),
                labels == name_views(team_names@),
                all.no_duplicates(),
                labels.no_duplicates(),
                awaited =~= all.to_set(),
                players_per_team == n / count,
                extra_players == if k < n % count {
                    n % count - k
                } else {
                    0
                },
                next == team_start(n, count, k as int),
                next <= n,
                pool.pool_wf(),
                pool.powers_left() == n - next,
                pool.awaiting() == names_left(awaited, all.take(next as int)),
                teams@.teams.len() == k,
                pool.holdings_offered() == attribute_pool.holdings_offered(),
                pool.roles_offered() == attribute_pool.roles_offered(),
                forall|t: int, i: int| teams@.occupied(t, i) ==> (#[trigger] teams@.at(t, i)).wf(),
                forall|t: int, i: int|
                    teams@.occupied(t, i) ==> dealt_by(&attribute_pool, #[trigger] teams@.at(t, i)),
                forall|t: int|
                    0 <= t < k ==> {
                        &&& (#[trigger] teams@.teams[t]).name == labels[t]
                        &&& teams@.teams[t].team.honor == 0
                        &&& roster_names(teams@.teams[t].team.players) == all.subrange(
                            team_start(n, count, t),
                            team_start(n, count, t) + team_size(n, count, t),
                        )
                        &&& forall|i: int|
                            0 <= i < teams@.teams[t].team.players.len() ==> (
                            #[trigger] teams@.teams[t].team.players[i]).team == labels[t]
                    },
            decreases team_names.len() - k,
        {
            proof {
                lemma_team_start(n, count, k as int);
                assert(0 <= n % count < count) by (nonlinear_arith)
                    requires
                        count > 0,
                        n >= 0,
                ;
            }
            // The first teams get one more each of the players left over.
            let num_players = if extra_players > 0 {
                extra_players -= 1;
                players_per_team + 1
            } else {
                players_per_team
            };
            assert(num_players == team_size(n, count, k as int));
            let mut players_on_team: Vec<String> = Vec::new();
            let mut j: usize = 0;
            while j < num_players
                invariant
                    j <= num_players,
                    next + num_players <= n,
                    n == player_list.len(),
                    all == name_views(player_list@),
                    name_views(players_on_team@) == all.subrange(next as int, next + j),
                decreases num_players - j,
            {
                let ghost so_far = players_on_team@;
                let name = player_list[next + j].clone();
                players_on_team.push(name);
                proof {
                    assert(name@ == all[next + j]);
                    assert(players_on_team@ == so_far.push(name));
                    assert(name_views(players_on_team@) =~= name_views(so_far).push(name@));
                    assert(all.subrange(next as int, next + j + 1) =~= all.subrange(
                        next as int,
                        next + j,
                    ).push(all[next + j]));
                }
                j += 1;
            }
            let ghost chunk = all.subrange(next as int, next + num_players);
            let team = &team_names[k];
            proof {
                assert(labels[k as int] == team@);
                assert forall|a: int, b: int|
                    0 <= a < chunk.len() && 0 <= b < chunk.len() && a != b implies chunk[a]
                    != chunk[b] by {
                    assert(all[next + a] != all[next + b]);
                }
                assert forall|i: int| 0 <= i < players_on_team.len() implies pool.awaiting().contains(
                    #[trigger] name_views(players_on_team@)[i],
                ) by {
                    let name = all[next + i];
                    assert(awaited.contains(name));
                    if all.take(next as int).contains(name) {
                        let at = choose|at: int| 0 <= at < next && all.take(next as int)[at] == name;
                        assert(all[at] == all[next + i]);
                    }
                }
                assert(!teams@.has_team(team@)) by {
                    if teams@.has_team(team@) {
                        let t = choose|t: int|
                            0 <= t < teams@.teams.len() && (#[trigger] teams@.teams[t]).name
                                == team@;
                        assert(labels[t] == labels[k as int]);
                    }
                }
            }
            let roster = PlayersByName::from(team.as_str(), players_on_team, &mut pool);
            let ghost before = teams@;
            let added = teams.add(team.as_str(), roster);
            assert(added is Ok);
            proof {
                assert(pool.awaiting() =~= names_left(awaited, all.take(next + num_players))) by {
                    let done = all.take(next as int);
                    let more = all.take(next + num_players);
                    assert forall|name: Seq<char>| more.contains(name) <==> (done.contains(name)
                        || chunk.contains(name)) by {
                        if done.contains(name) {
                            let at = choose|at: int| 0 <= at < done.len() && done[at] == name;
                            assert(more[at] == name);
                        }
                        if chunk.contains(name) {
                            let at = choose|at: int| 0 <= at < chunk.len() && chunk[at] == name;
                            assert(more[next + at] == name);
                        }
                        if more.contains(name) {
                            let at = choose|at: int| 0 <= at < more.len() && more[at] == name;
                            if at < next {
                                assert(done[at] == name);
                            } else {
                                assert(chunk[at - next] == name);
                            }
                        }
                    }
                }
                assert forall|t: int, i: int| teams@.occupied(t, i) implies (#[trigger] teams@.at(
                    t,
                    i,
                )).wf() && dealt_by(&attribute_pool, teams@.at(t, i)) by {
                    if t < k {
                        assert(before.occupied(t, i));
                        assert(teams@.at(t, i) == before.at(t, i));
                    } else {
                        assert(teams@.at(t, i) == roster@[i]);
                    }
                }
                assert forall|t: int| 0 <= t < k + 1 implies {
                    &&& (#[trigger] teams@.teams[t]).name == labels[t]
                    &&& teams@.teams[t].team.honor == 0
                    &&& roster_names(teams@.teams[t].team.players) == all.subrange(
                        team_start(n, count, t),
                        team_start(n, count, t) + team_size(n, count, t),
                    )
                    &&& forall|i: int|
                        0 <= i < teams@.teams[t].team.players.len() ==> (
                        #[trigger] teams@.teams[t].team.players[i]).team == labels[t]
                } by {
                    if t < k {
                        assert(teams@.teams[t] == before.teams[t]);
                    }
                }
                lemma_team_start(n, count, k + 1);
            }
            next = next + num_players;
            k += 1;
        }
        proof {
            lemma_team_start(n, count, count);
            assert(all.take(n) =~= all);
            assert(pool.awaiting() =~= Set::<Seq<char>>::empty());
            lemma_dealt_wf(teams@, all, labels);
        }
        // Every player has been dealt, and the pool has handed out all it had.
        let drained = pool.is_empty();
        assert(drained);
        ActiveGame(GameHistory::starting_with(teams))
    }

    /// The state that the game is in.
    pub fn current_state(&self) -> (state: &TeamsByName)
        requires
            self.wf(),
        ensures
            state@ == self@.current_state(),
            state.wf(),
    {
        self.0.current_state()
    }

    /// What `attack` would lead to, resolved against the current state. The
    /// game is left as it is.
    pub fn preview(&self, attack: Attack) -> (outcome: AttackOutcome)
        requires
            self.wf(),
            attack@.resolvable(self@.current_state()),
        ensures
            outcome@ == (OutcomeView {
                attack: attack@,
                new_state: attack@.resolve(self@.current_state()),
            }),
    {
        attack.outcome(self.current_state())
    }

    /// Resolves `attack` against the current state and records the outcome,
    /// which becomes the current step.
    pub fn apply_attack(&mut self, attack: Attack)
        requires
            old(self).wf(),
            attack@.resolvable(old(self)@.current_state()),
        ensures
            final(self).wf(),
            final(self)@ == old(self)@.apply(
                OutcomeView {
                    attack: attack@,
                    new_state: attack@.resolve(old(self)@.current_state()),
                },
            ),
            final(self)@.current_state() == attack@.resolve(old(self)@.current_state()),
    {
        proof {
            lemma_resolve_wf(attack@, self@.current_state());
        }
        let outcome = self.preview(attack);
        self.apply_attack_outcome(outcome);
    }

    /// Records `attack`, which becomes the current step.
    pub fn apply_attack_outcome(&mut self, attack: AttackOutcome)
        requires
            old(self).wf(),
            attack@.new_state.wf(),
        ensures
            final(self).wf(),
            final(self)@ == old(self)@.apply(attack@),
            final(self)@.current_state() == attack@.new_state,
    {
        self.0.apply_attack(attack);
    }

    /// Steps back to the state before the current step. From the initial state
    /// no step back can be taken.
    pub fn undo_last_attack(&mut self) -> (undone: Result<(), HistoryNavigationErr>)
        requires
            old(self).wf(),
        ensures
            final(self).wf(),
            match undone {
                Ok(()) => old(self)@.current is Some && final(self)@ == old(self)@.undo(),
                Err(e) => {
                    &&& e == HistoryNavigationErr::UndoFromInitialState
                    &&& old(self)@.current is None
                    &&& final(self)@ == old(self)@
                },
            },
            final(self)@ == old(self)@.undo_times(1),
    {
        self.0.undo_last_attack()
    }

    /// The name of the player called `name`, and the name of the team that
    /// holds the player, in the current state.
    pub fn player_by_name(&self, name: &str) -> (found: Option<(PName, TName)>)
        requires
            self.wf(),
        ensures
            match found {
                Some((player, team)) => {
                    &&& self@.current_state().has_player(name@)
                    &&& player@ == name@
                    &&& team@ == self@.current_state().team_of(name@)
                },
                None => !self@.current_state().has_player(name@),
            },
    {
        self.current_state().player_by_name(name)
    }

    /// The record of the player called `player` in the current state.
    pub fn player_data(&self, player: &PName) -> (record: &Player)
        requires
            self.wf(),
            self@.current_state().has_player(player@),
        ensures
            record@ == self@.current_state().player(player@),
    {
        self.current_state().player_data(player)
    }

    /// The record of the player called `player` in the current state, to be
    /// changed in place. The game afterwards holds the player as the caller
    /// left it.
    pub fn player_mut(&mut self, player: &PName) -> (record: &mut Player)
        requires
            old(self).wf(),
            old(self)@.current_state().has_player(player@),
        ensures
            record@ == old(self)@.current_state().player(player@),
            final(self)@ == old(self)@.with_current_state(
                old(self)@.current_state().with_player(
                    old(self)@.current_state().locate(player@).0,
                    old(self)@.current_state().locate(player@).1,
                    final(record)@,
                ),
            ),
    {
        let ghost state = self@.current_state();
        let record = self.0.current_mut().player_mut(player);
        proof {
            let (t, i) = choose|t: int, i: int|
                state.occupied(t, i) && #[trigger] state.at(t, i) == record@;
            state.lemma_locate(t, i);
        }
        record
    }

    /// All the players of the current state, each to be changed in place: those
    /// of the first team in their order, then those of the second, and so on.
    /// The game afterwards holds each player as the caller left it: nothing
    /// but its current state has changed, and that only in its players.
    pub fn players_mut(&mut self) -> (all: Vec<&mut Player>)
        requires
            old(self).wf(),
        ensures
            held_by(all@) == old(self)@.current_state().all_players(),
            final(self)@ == old(self)@.with_current_state(final(self)@.current_state()),
            final(self)@.current_state().same_shape(old(self)@.current_state()),
            final(self)@.current_state().all_players().len() == all@.len(),
            forall|k: int|
                0 <= k < all@.len() ==> final(self)@.current_state().all_players()[k] == final(
                    #[trigger] all@[k]
                )@,
    {
        let state = self.0.current_mut();
        let ghost changed = state;
        let all = state.players_mut();
        proof {
            assert(old(self)@.with_current_state(final(changed)@).current_state() == final(
                changed
            )@);
        }
        all
    }

    /// All the players of the current state: those of the first team in their
    /// order, then those of the second, and so on.
    pub fn players(&self) -> (all: Vec<&Player>)
        requires
            self.wf(),
        ensures
            all@.map_values(|player: &Player| player@) == self@.current_state().all_players(),
    {
        self.current_state().players()
    }

    /// The history of the game.
    pub fn history(&self) -> (history: &GameHistory)
        ensures
            history@ == self@,
    {
        &self.0
    }
}

} // verus!
