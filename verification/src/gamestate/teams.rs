//! Teams: the players and the honor of each, and the ledger of all teams, which
//! is the state of a game at one point in time.

use crate::gamestate::builder::{GameSetupErr, OptErr};
use crate::gamestate::players::{
    each_mut, held_by, roster_has, PName, Player, PlayerView, PlayersByName,
};
use crate::gamestate::power::PowerType;
use vstd::prelude::*;

verus! {

/// The name of a team.
#[derive(Eq, Hash, Debug)]
pub struct TName(pub String);

impl View for TName {
    type V = Seq<char>;

    open spec fn view(&self) -> Seq<char> {
        self.0@
    }
}

impl Clone for TName {
    fn clone(&self) -> (name: TName)
        ensures
            name == *self,
    {
        TName(self.0.clone())
    }
}

impl PartialEq for TName {
    fn eq(&self, other: &TName) -> (equal: bool) {
        self.0 == other.0
    }
}

impl vstd::std_specs::cmp::PartialEqSpecImpl for TName {
    open spec fn obeys_eq_spec() -> bool {
        true
    }

    open spec fn eq_spec(&self, other: &TName) -> bool {
        self@ == other@
    }
}

/// The model of a [`Team`].
pub struct TeamView {
    pub players: Seq<PlayerView>,
    pub honor: int,
}

/// A team: its players, and the honor it has won.
#[derive(Debug)]
pub struct Team {
    players: PlayersByName,
    honor: i16,
}

impl View for Team {
    type V = TeamView;

    closed spec fn view(&self) -> TeamView {
        TeamView { players: self.players@, honor: self.honor as int }
    }
}

impl Clone for Team {
    fn clone(&self) -> (team: Team)
        ensures
            team@ == self@,
    {
        Team { players: self.players.clone(), honor: self.honor }
    }
}

impl Default for Team {
    fn default() -> (team: Team)
        ensures
            team@ == (TeamView { players: Seq::empty(), honor: 0 }),
    {
        Team { players: PlayersByName::default(), honor: 0 }
    }
}

impl Team {
    /// A team of `players` that has won nothing yet.
    pub fn with_players(players: PlayersByName) -> (team: Team)
        ensures
            team@ == (TeamView { players: players@, honor: 0 }),
    {
        Team { players, honor: 0 }
    }

    /// The honor is a number that the team's counter can hold.
    pub broadcast proof fn lemma_honor_bounds(&self)
        ensures
            i16::MIN <= (#[trigger] self@).honor <= i16::MAX,
    {
    }

    /// The team wins `honor`.
    pub fn gain_honor(&mut self, honor: i16)
        requires
            i16::MIN <= old(self)@.honor + honor <= i16::MAX,
        ensures
            final(self)@ == (TeamView { honor: old(self)@.honor + honor, ..old(self)@ }),
    {
        self.honor += honor;
    }

    /// The honor that the team has won.
    pub fn honor(&self) -> (honor: i16)
        ensures
            honor == self@.honor,
    {
        self.honor
    }

    /// The team's players.
    pub fn players(&self) -> (players: &PlayersByName)
        ensures
            players@ == self@.players,
    {
        &self.players
    }

    /// The player at the place `i` spends the colour `ptype`.
    pub fn lose_power_at(&mut self, i: usize, ptype: PowerType)
        requires
            i < old(self)@.players.len(),
        ensures
            final(self)@ == (TeamView {
                players: old(self)@.players.update(
                    i as int,
                    old(self)@.players[i as int].without(ptype),
                ),
                ..old(self)@
            }),
    {
        self.players.lose_power_at(i, ptype);
    }
}

/// The place of a player in a ledger: the team, and the place in the team.
#[derive(Copy, Clone, Debug, PartialEq, Eq, Structural)]
pub struct Slot {
    pub team: usize,
    pub place: usize,
}

/// Whether the place `i` of the team `t` is among `slots`.
pub open spec fn slots_hold(slots: Seq<Slot>, t: int, i: int) -> bool {
    exists|k: int| 0 <= k < slots.len() && (#[trigger] slots[k]).team == t && slots[k].place == i
}

/// A team of a ledger, with the name it goes by.
pub struct NamedTeam {
    pub name: Seq<char>,
    pub team: TeamView,
}

/// The model of a [`TeamsByName`]: the teams in the order in which they were
/// added.
pub struct LedgerView {
    pub teams: Seq<NamedTeam>,
}

impl LedgerView {
    /// The ledger without teams.
    pub open spec fn empty() -> LedgerView {
        LedgerView { teams: Seq::empty() }
    }

    /// Whether the place `i` of the team `t` holds a player.
    pub open spec fn occupied(self, t: int, i: int) -> bool {
        0 <= t < self.teams.len() && 0 <= i < self.teams[t].team.players.len()
    }

    /// The player at the place `i` of the team `t`.
    pub open spec fn at(self, t: int, i: int) -> PlayerView {
        self.teams[t].team.players[i]
    }

    /// Whether a team is called `name`.
    pub open spec fn has_team(self, name: Seq<char>) -> bool {
        exists|t: int| 0 <= t < self.teams.len() && (#[trigger] self.teams[t]).name == name
    }

    /// The index of the team called `name`.
    pub open spec fn team_index(self, name: Seq<char>) -> int {
        choose|t: int| 0 <= t < self.teams.len() && (#[trigger] self.teams[t]).name == name
    }

    /// The team called `name`.
    pub open spec fn team(self, name: Seq<char>) -> TeamView {
        self.teams[self.team_index(name)].team
    }

    /// Whether a player is called `name`.
    pub open spec fn has_player(self, name: Seq<char>) -> bool {
        exists|t: int, i: int| self.occupied(t, i) && (#[trigger] self.at(t, i)).name == name
    }

    /// The team and the place of the player called `name`.
    pub open spec fn locate(self, name: Seq<char>) -> (int, int) {
        choose|t: int, i: int| self.occupied(t, i) && (#[trigger] self.at(t, i)).name == name
    }

    /// The player called `name`.
    pub open spec fn player(self, name: Seq<char>) -> PlayerView {
        self.at(self.locate(name).0, self.locate(name).1)
    }

    /// The name of the team that holds the player called `name`.
    pub open spec fn team_of(self, name: Seq<char>) -> Seq<char> {
        self.teams[self.locate(name).0].name
    }

    /// All the players: those of the first team in their order, then those of
    /// the second, and so on.
    pub open spec fn all_players(self) -> Seq<PlayerView> {
        self.teams.map_values(|named: NamedTeam| named.team.players).flatten()
    }

    /// No two teams share a name, no two players anywhere share a name, and the
    /// holdings of each player are well formed.
    pub open spec fn wf(self) -> bool {
        &&& forall|s: int, t: int|
            0 <= s < t < self.teams.len() ==> (#[trigger] self.teams[s]).name != (
            #[trigger] self.teams[t]).name
        &&& forall|s: int, i: int, t: int, j: int|
            self.occupied(s, i) && self.occupied(t, j) && (#[trigger] self.at(s, i)).name == (
            #[trigger] self.at(t, j)).name ==> s == t && i == j
        &&& forall|t: int, i: int| self.occupied(t, i) ==> (#[trigger] self.at(t, i)).wf()
    }

    /// The ledger with `player` at the place `i` of the team `t`.
    pub open spec fn with_player(self, t: int, i: int, player: PlayerView) -> LedgerView {
        LedgerView {
            teams: self.teams.update(
                t,
                NamedTeam {
                    team: TeamView {
                        players: self.teams[t].team.players.update(i, player),
                        ..self.teams[t].team
                    },
                    ..self.teams[t]
                },
            ),
        }
    }

    /// The ledger after the team at the index `t` has won `honor`.
    pub open spec fn with_honor_gained(self, t: int, honor: int) -> LedgerView {
        LedgerView {
            teams: self.teams.update(
                t,
                NamedTeam {
                    team: TeamView {
                        honor: self.teams[t].team.honor + honor,
                        ..self.teams[t].team
                    },
                    ..self.teams[t]
                },
            ),
        }
    }

    /// The ledger with one more team, called `name`, of `players`, that has won
    /// nothing yet.
    pub open spec fn with_team(self, name: Seq<char>, players: Seq<PlayerView>) -> LedgerView {
        LedgerView {
            teams: self.teams.push(NamedTeam { name, team: TeamView { players, honor: 0 } }),
        }
    }

    /// The players of the first `t` teams, in order.
    pub open spec fn players_of_first(self, t: int) -> Seq<PlayerView> {
        self.teams.map_values(|named: NamedTeam| named.team.players).take(t).flatten()
    }

    /// The players of the first `t` teams are found team by team, and those of
    /// all teams are all the players.
    pub proof fn lemma_players_of_first(self, t: int)
        requires
            0 <= t <= self.teams.len(),
        ensures
            self.players_of_first(0) == Seq::<PlayerView>::empty(),
            t < self.teams.len() ==> self.players_of_first(t + 1) == self.players_of_first(t)
                + self.teams[t].team.players,
            self.players_of_first(self.teams.len() as int) == self.all_players(),
    {
        let rosters = self.teams.map_values(|named: NamedTeam| named.team.players);
        assert(rosters.take(0) =~= Seq::<Seq<PlayerView>>::empty());
        assert(rosters.take(rosters.len() as int) =~= rosters);
        if t < self.teams.len() {
            assert(rosters.take(t + 1) =~= rosters.take(t).push(rosters[t]));
            rosters.take(t).lemma_flatten_push(rosters[t]);
        }
    }

    /// Every one of the players of the first `t` teams of a well-formed ledger
    /// has well-formed holdings.
    pub proof fn lemma_players_of_first_wf(self, t: int)
        requires
            self.wf(),
            0 <= t <= self.teams.len(),
        ensures
            forall|i: int|
                0 <= i < self.players_of_first(t).len() ==> (#[trigger] self.players_of_first(
                    t,
                )[i]).wf(),
        decreases t,
    {
        self.lemma_players_of_first(0);
        if t > 0 {
            self.lemma_players_of_first_wf(t - 1);
            self.lemma_players_of_first(t - 1);
            let before = self.players_of_first(t - 1);
            assert forall|i: int| 0 <= i < self.players_of_first(t).len() implies (
            #[trigger] self.players_of_first(t)[i]).wf() by {
                if i >= before.len() {
                    assert(self.occupied(t - 1, i - before.len()));
                    assert(self.players_of_first(t)[i] == self.at(t - 1, i - before.len()));
                }
            }
        }
    }

    /// Two ledgers have the same teams, under the same names, and as many
    /// players in each.
    pub open spec fn same_layout(self, other: LedgerView) -> bool {
        &&& self.teams.len() == other.teams.len()
        &&& forall|t: int|
            0 <= t < self.teams.len() ==> {
                &&& (#[trigger] self.teams[t]).name == other.teams[t].name
                &&& self.teams[t].team.players.len() == other.teams[t].team.players.len()
            }
    }

    /// Two ledgers have the same teams, under the same names and with the same
    /// honor, and as many players in each.
    pub open spec fn same_shape(self, other: LedgerView) -> bool {
        &&& self.teams.len() == other.teams.len()
        &&& forall|t: int|
            0 <= t < self.teams.len() ==> {
                &&& (#[trigger] self.teams[t]).name == other.teams[t].name
                &&& self.teams[t].team.honor == other.teams[t].team.honor
                &&& self.teams[t].team.players.len() == other.teams[t].team.players.len()
            }
    }

    /// Two ledgers of the same shape that hold the same player at every place
    /// are the same ledger.
    pub proof fn lemma_same_players(self, other: LedgerView)
        requires
            self.same_shape(other),
            forall|t: int, i: int| self.occupied(t, i) ==> #[trigger] self.at(t, i) == other.at(t, i),
        ensures
            self == other,
    {
        assert forall|t: int| 0 <= t < self.teams.len() implies #[trigger] self.teams[t]
            == other.teams[t] by {
            assert forall|i: int| 0 <= i < self.teams[t].team.players.len() implies
                self.teams[t].team.players[i] == other.teams[t].team.players[i] by {
                assert(self.occupied(t, i));
                assert(self.at(t, i) == other.at(t, i));
            }
            assert(self.teams[t].team.players =~= other.teams[t].team.players);
        }
        assert(self.teams =~= other.teams);
    }

    /// Putting a player at a place changes that place and nothing else.
    pub proof fn lemma_with_player(self, t: int, i: int, player: PlayerView)
        requires
            self.occupied(t, i),
        ensures
            self.with_player(t, i, player).same_shape(self),
            self.with_player(t, i, player).at(t, i) == player,
            forall|s: int, j: int|
                self.occupied(s, j) && !(s == t && j == i) ==> #[trigger] self.with_player(
                    t,
                    i,
                    player,
                ).at(s, j) == self.at(s, j),
    {
    }

    /// In a well-formed ledger a player is found where the name stands.
    pub proof fn lemma_locate(self, t: int, i: int)
        requires
            self.wf(),
            self.occupied(t, i),
        ensures
            self.has_player(self.at(t, i).name),
            self.locate(self.at(t, i).name) == (t, i),
            self.player(self.at(t, i).name) == self.at(t, i),
            self.team_of(self.at(t, i).name) == self.teams[t].name,
    {
        let name = self.at(t, i).name;
        let (s, j) = self.locate(name);
        assert(self.occupied(s, j) && self.at(s, j).name == name);
    }

    /// In a well-formed ledger a team is found where the name stands.
    pub proof fn lemma_team_index(self, t: int)
        requires
            self.wf(),
            0 <= t < self.teams.len(),
        ensures
            self.has_team(self.teams[t].name),
            self.team_index(self.teams[t].name) == t,
    {
        let name = self.teams[t].name;
        let s = self.team_index(name);
        assert(0 <= s < self.teams.len() && self.teams[s].name == name);
    }

    /// Each of the players of the first `t` teams stands at a place of one of
    /// these teams: behind the players of the teams before it, as far in as
    /// the place says.
    pub proof fn lemma_place_of(self, t: int, k: int)
        requires
            0 <= t <= self.teams.len(),
            0 <= k < self.players_of_first(t).len(),
        ensures
            exists|s: int, i: int|
                {
                    &&& 0 <= s < t
                    &&& #[trigger] self.occupied(s, i)
                    &&& k == self.players_of_first(s).len() + i
                    &&& self.players_of_first(t)[k] == self.at(s, i)
                },
        decreases t,
    {
        self.lemma_players_of_first(0);
        if t > 0 {
            self.lemma_players_of_first(t - 1);
            let before = self.players_of_first(t - 1);
            if k < before.len() {
                self.lemma_place_of(t - 1, k);
                let (s, i) = choose|s: int, i: int|
                    {
                        &&& 0 <= s < t - 1
                        &&& #[trigger] self.occupied(s, i)
                        &&& k == self.players_of_first(s).len() + i
                        &&& self.players_of_first(t - 1)[k] == self.at(s, i)
                    };
                assert(self.occupied(s, i));
            } else {
                assert(self.occupied(t - 1, k - before.len()));
            }
        }
    }

    /// Two ledgers of the same layout have as many players in their first `t`
    /// teams.
    pub proof fn lemma_same_layout_counts(self, other: LedgerView, t: int)
        requires
            self.same_layout(other),
            0 <= t <= self.teams.len(),
        ensures
            self.players_of_first(t).len() == other.players_of_first(t).len(),
        decreases t,
    {
        self.lemma_players_of_first(0);
        other.lemma_players_of_first(0);
        if t > 0 {
            self.lemma_same_layout_counts(other, t - 1);
            self.lemma_players_of_first(t - 1);
            other.lemma_players_of_first(t - 1);
        }
    }

    /// A player that a ledger holds is where `locate` says.
    pub proof fn lemma_located(self, name: Seq<char>)
        requires
            self.has_player(name),
        ensures
            self.occupied(self.locate(name).0, self.locate(name).1),
            self.player(name).name == name,
    {
    }
}

/// A team of the ledger with its name.
#[derive(Debug)]
struct Entry {
    name: TName,
    team: Team,
}

impl Entry {
    spec fn model(self) -> NamedTeam {
        NamedTeam { name: self.name@, team: self.team@ }
    }
}

/// All the teams of a game, each found by name: the state of the game at one
/// point in time. The teams are kept in the order in which they were added.
#[derive(Debug)]
pub struct TeamsByName(Vec<Entry>);

impl View for TeamsByName {
    type V = LedgerView;

    closed spec fn view(&self) -> LedgerView {
        LedgerView { teams: self.0@.map_values(|entry: Entry| entry.model()) }
    }
}

impl Clone for TeamsByName {
    fn clone(&self) -> (teams: TeamsByName)
        ensures
            teams@ == self@,
    {
        let mut copies: Vec<Entry> = Vec::new();
        let mut t: usize = 0;
        while t < self.0.len()
            invariant
                t <= self.0.len(),
                copies@.len() == t,
                forall|s: int| 0 <= s < t ==> (#[trigger] copies@[s]).model() == self.0@[s].model(),
            decreases self.0.len() - t,
        {
            copies.push(Entry { name: self.0[t].name.clone(), team: self.0[t].team.clone() });
            t += 1;
        }
        let teams = TeamsByName(copies);
        assert(teams@.teams =~= self@.teams);
        teams
    }
}

impl Default for TeamsByName {
    fn default() -> (teams: TeamsByName)
        ensures
            teams@ == LedgerView::empty(),
    {
        let teams = TeamsByName(Vec::new());
        assert(teams@.teams =~= Seq::empty());
        teams
    }
}

impl TeamsByName {
    /// No two teams share a name, no two players anywhere share a name, and the
    /// holdings of each player are well formed.
    pub open spec fn wf(&self) -> bool {
        self@.wf()
    }

    /// Adds the team `t` with the players `players`. It has won nothing yet.
    /// No two teams can have the same name: where a team is called `t`
    /// already, nothing is added.
    pub fn add(&mut self, t: &str, players: PlayersByName) -> (added: OptErr<GameSetupErr>)
        ensures
            match added {
                Ok(()) => {
                    &&& !old(self)@.has_team(t@)
                    &&& final(self)@ == old(self)@.with_team(t@, players@)
                },
                Err(e) => {
                    &&& e == GameSetupErr::TeamNameDuplicated
                    &&& old(self)@.has_team(t@)
                    &&& final(self)@ == old(self)@
                },
            },
    {
        let name = TName(t.to_owned());
        if self.has_team(&name) {
            return Err(GameSetupErr::TeamNameDuplicated);
        }
        self.0.push(Entry { name, team: Team::with_players(players) });
        assert(self@.teams =~= old(self)@.with_team(t@, players@).teams);
        Ok(())
    }

    /// How many teams there are.
    pub fn team_count(&self) -> (n: usize)
        ensures
            n == self@.teams.len(),
    {
        self.0.len()
    }

    /// The name of the team at the index `t`.
    pub fn team_name(&self, t: usize) -> (name: &TName)
        requires
            t < self@.teams.len(),
        ensures
            name@ == self@.teams[t as int].name,
    {
        &self.0[t].name
    }

    /// The team at the index `t`.
    pub fn team_at(&self, t: usize) -> (team: &Team)
        requires
            t < self@.teams.len(),
        ensures
            team@ == self@.teams[t as int].team,
    {
        &self.0[t].team
    }

    /// The index of the team called `t`.
    pub fn team_position(&self, t: &TName) -> (index: Option<usize>)
        ensures
            match index {
                Some(k) => k < self@.teams.len() && self@.teams[k as int].name == t@
                    && forall|j: int| 0 <= j < k ==> (#[trigger] self@.teams[j]).name != t@,
                None => !self@.has_team(t@),
            },
    {
        let mut k: usize = 0;
        while k < self.0.len()
            invariant
                k <= self.0.len(),
                forall|j: int| 0 <= j < k ==> (#[trigger] self@.teams[j]).name != t@,
            decreases self.0.len() - k,
        {
            if self.0[k].name == *t {
                return Some(k);
            }
            k += 1;
        }
        None
    }

    /// Whether a team is called `t`.
    pub fn has_team(&self, t: &TName) -> (has: bool)
        ensures
            has == self@.has_team(t@),
    {
        self.team_position(t).is_some()
    }

    /// The team called `t`, to be changed in place. The ledger afterwards holds
    /// the team as the caller left it.
    pub fn team_mut(&mut self, t: &TName) -> (team: &mut Team)
        requires
            old(self)@.has_team(t@),
        ensures
            exists|k: int|
                {
                    &&& 0 <= k < old(self)@.teams.len()
                    &&& (#[trigger] old(self)@.teams[k]).name == t@
                    &&& forall|j: int| 0 <= j < k ==> (#[trigger] old(self)@.teams[j]).name != t@
                    &&& team@ == old(self)@.teams[k].team
                    &&& final(self)@.teams == old(self)@.teams.update(
                        k,
                        NamedTeam { name: t@, team: final(team)@ },
                    )
                },
    {
        let index = self.team_position(t);
        let k = match index {
            Some(k) => k,
            None => unreached(),
        };
        let ghost before = self@;
        let team = &mut self.0[k].team;
        proof {
            assert(after_borrow(self.0)@.map_values(|entry: Entry| entry.model())
                =~= before.teams.update(
                k as int,
                NamedTeam { name: t@, team: final(team)@ },
            ));
        }
        team
    }

    /// The team called `t` wins `honor`.
    pub fn gain_honor(&mut self, t: &TName, honor: i16)
        requires
            old(self).wf(),
            old(self)@.has_team(t@),
            i16::MIN <= old(self)@.team(t@).honor + honor <= i16::MAX,
        ensures
            final(self)@ == old(self)@.with_honor_gained(old(self)@.team_index(t@), honor as int),
    {
        let index = self.team_position(t);
        let k = match index {
            Some(k) => k,
            None => unreached(),
        };
        proof {
            self@.lemma_team_index(k as int);
        }
        self.0[k].team.gain_honor(honor);
        assert(self@.teams =~= old(self)@.with_honor_gained(k as int, honor as int).teams);
    }

    /// How many players the team at the index `t` has.
    pub fn team_size(&self, t: usize) -> (n: usize)
        requires
            t < self@.teams.len(),
        ensures
            n == self@.teams[t as int].team.players.len(),
    {
        self.0[t].team.players().len()
    }

    /// The player at `slot`.
    pub fn player_at(&self, slot: Slot) -> (player: &Player)
        requires
            self@.occupied(slot.team as int, slot.place as int),
        ensures
            player@ == self@.at(slot.team as int, slot.place as int),
    {
        self.0[slot.team].team.players().at(slot.place)
    }

    /// The player at `slot` spends the colour `ptype`.
    pub fn lose_power_at(&mut self, slot: Slot, ptype: PowerType)
        requires
            old(self)@.occupied(slot.team as int, slot.place as int),
        ensures
            final(self)@ == old(self)@.with_player(
                slot.team as int,
                slot.place as int,
                old(self)@.at(slot.team as int, slot.place as int).without(ptype),
            ),
    {
        self.0[slot.team].team.lose_power_at(slot.place, ptype);
        assert(self@.teams =~= old(self)@.with_player(
            slot.team as int,
            slot.place as int,
            old(self)@.at(slot.team as int, slot.place as int).without(ptype),
        ).teams);
    }

    /// The player at each of `slots` spends the colour `ptype`.
    pub fn lose_power_all(&mut self, slots: &Vec<Slot>, ptype: PowerType)
        requires
            forall|k: int|
                0 <= k < slots@.len() ==> old(self)@.occupied(
                    (#[trigger] slots@[k]).team as int,
                    slots@[k].place as int,
                ),
        ensures
            final(self)@.same_shape(old(self)@),
            forall|t: int, i: int|
                old(self)@.occupied(t, i) ==> #[trigger] final(self)@.at(t, i) == if slots_hold(
                    slots@,
                    t,
                    i,
                ) {
                    old(self)@.at(t, i).without(ptype)
                } else {
                    old(self)@.at(t, i)
                },
    {
        let mut k: usize = 0;
        while k < slots.len()
            invariant
                k <= slots@.len(),
                self@.same_shape(old(self)@),
                forall|j: int|
                    0 <= j < slots@.len() ==> old(self)@.occupied(
                        (#[trigger] slots@[j]).team as int,
                        slots@[j].place as int,
                    ),
                forall|t: int, i: int|
                    old(self)@.occupied(t, i) ==> #[trigger] self@.at(t, i) == if slots_hold(
                        slots@.take(k as int),
                        t,
                        i,
                    ) {
                        old(self)@.at(t, i).without(ptype)
                    } else {
                        old(self)@.at(t, i)
                    },
            decreases slots@.len() - k,
        {
            let slot = slots[k];
            let ghost before = self@;
            assert(old(self)@.occupied(slot.team as int, slot.place as int));
            assert(before.occupied(slot.team as int, slot.place as int));
            self.lose_power_at(slot, ptype);
            proof {
                let st = slot.team as int;
                let sp = slot.place as int;
                before.lemma_with_player(st, sp, before.at(st, sp).without(ptype));
                let done = slots@.take(k as int);
                let next = slots@.take(k + 1);
                assert(next =~= done.push(slot));
                assert forall|t: int, i: int| old(self)@.occupied(t, i) implies #[trigger] self@.at(
                    t,
                    i,
                ) == if slots_hold(next, t, i) {
                    old(self)@.at(t, i).without(ptype)
                } else {
                    old(self)@.at(t, i)
                } by {
                    assert(before.occupied(t, i));
                    if slots_hold(done, t, i) {
                        let j = choose|j: int|
                            0 <= j < done.len() && (#[trigger] done[j]).team == t && done[j].place
                                == i;
                        assert(next[j].team == t && next[j].place == i);
                    }
                    if t == st && i == sp {
                        assert(next[k as int].team == t && next[k as int].place == i);
                    }
                    if slots_hold(next, t, i) && !(t == st && i == sp) {
                        let j = choose|j: int|
                            0 <= j < next.len() && (#[trigger] next[j]).team == t && next[j].place
                                == i;
                        assert(j < k);
                        assert(done[j].team == t && done[j].place == i);
                    }
                }
            }
            k += 1;
        }
        assert(slots@.take(k as int) =~= slots@);
    }

    /// Where the player called `name` is: the first place, in the order of the
    /// teams and of their players, that holds the name.
    pub fn find_slot(&self, name: &PName) -> (found: Option<Slot>)
        ensures
            match found {
                Some(slot) => {
                    &&& self@.occupied(slot.team as int, slot.place as int)
                    &&& self@.at(slot.team as int, slot.place as int).name == name@
                    &&& self@.has_player(name@)
                    &&& self.wf() ==> self@.locate(name@) == (slot.team as int, slot.place as int)
                },
                None => !self@.has_player(name@),
            },
    {
        let mut t: usize = 0;
        while t < self.0.len()
            invariant
                t <= self.0.len(),
                forall|s: int, i: int|
                    0 <= s < t && self@.occupied(s, i) ==> (#[trigger] self@.at(s, i)).name
                        != name@,
            decreases self.0.len() - t,
        {
            match self.0[t].team.players().position(name) {
                Some(i) => {
                    proof {
                        if self.wf() {
                            self@.lemma_locate(t as int, i as int);
                        }
                    }
                    return Some(Slot { team: t, place: i });
                },
                None => {
                    assert forall|i: int| self@.occupied(t as int, i) implies (
                    #[trigger] self@.at(t as int, i)).name != name@ by {
                        if self@.at(t as int, i).name == name@ {
                            assert(self@.teams[t as int].team.players[i].name == name@);
                            assert(roster_has(self@.teams[t as int].team.players, name@));
                        }
                    }
                },
            }
            t += 1;
        }
        None
    }

    /// The name of the player called `name`, and the name of the team that
    /// holds the player.
    pub fn player_by_name(&self, name: &str) -> (found: Option<(PName, TName)>)
        ensures
            match found {
                Some((player, team)) => {
                    &&& self@.has_player(name@)
                    &&& player@ == name@
                    &&& self.wf() ==> team@ == self@.team_of(name@)
                },
                None => !self@.has_player(name@),
            },
    {
        let mut t: usize = 0;
        while t < self.0.len()
            invariant
                t <= self.0.len(),
                forall|s: int, i: int|
                    0 <= s < t && self@.occupied(s, i) ==> (#[trigger] self@.at(s, i)).name
                        != name@,
            decreases self.0.len() - t,
        {
            let roster = self.0[t].team.players();
            let mut i: usize = 0;
            while i < roster.len()
                invariant
                    i <= roster@.len(),
                    t < self.0.len(),
                    roster@ == self@.teams[t as int].team.players,
                    forall|j: int| 0 <= j < i ==> (#[trigger] self@.at(t as int, j)).name != name@,
                decreases roster@.len() - i,
            {
                let player = roster.at(i);
                if player.name().is_named(name) {
                    proof {
                        assert(self@.occupied(t as int, i as int));
                        assert(self@.at(t as int, i as int).name == name@);
                        if self.wf() {
                            self@.lemma_locate(t as int, i as int);
                        }
                    }
                    return Some((player.name().clone(), self.0[t].name.clone()));
                }
                i += 1;
            }
            t += 1;
        }
        None
    }

    /// The record of the player called `name`.
    pub fn player_data(&self, name: &PName) -> (player: &Player)
        requires
            self@.has_player(name@),
        ensures
            player@.name == name@,
            self.wf() ==> player@ == self@.player(name@),
    {
        match self.find_slot(name) {
            Some(slot) => self.player_at(slot),
            None => unreached(),
        }
    }

    /// The record of the player called `name`, to be changed in place. The
    /// ledger afterwards holds the player as the caller left it.
    pub fn player_mut(&mut self, name: &PName) -> (player: &mut Player)
        requires
            old(self)@.has_player(name@),
        ensures
            exists|t: int, i: int|
                {
                    &&& old(self)@.occupied(t, i)
                    &&& #[trigger] old(self)@.at(t, i) == player@
                    &&& player@.name == name@
                    &&& final(self)@ == old(self)@.with_player(t, i, final(player)@)
                },
    {
        let found = self.find_slot(name);
        let slot = match found {
            Some(slot) => slot,
            None => unreached(),
        };
        let ghost before = self@;
        let ghost t = slot.team as int;
        let ghost roster = before.teams[t].team.players;
        let found = self.0[slot.team].team.players.find_mut(name);
        let player = match found {
            Some(player) => player,
            None => {
                proof {
                    assert(roster[slot.place as int].name == name@);
                    assert(roster_has(roster, name@));
                }
                unreached()
            },
        };
        proof {
            let after = after_borrow(self.0)@[t];
            let j = choose|j: int|
                {
                    &&& 0 <= j < roster.len()
                    &&& #[trigger] roster[j] == player@
                    &&& after.team.players@ == roster.update(j, final(player)@)
                };
            assert(before.occupied(t, j));
            assert(before.at(t, j) == player@);
            assert(after_borrow(self.0)@.map_values(|entry: Entry| entry.model())
                =~= before.with_player(t, j, final(player)@).teams);
        }
        player
    }

    /// All the players, each to be changed in place: those of the first team
    /// in their order, then those of the second, and so on. The ledger
    /// afterwards holds each player as the caller left it, and is otherwise as
    /// it was.
    pub fn players_mut(&mut self) -> (all: Vec<&mut Player>)
        ensures
            held_by(all@) == old(self)@.all_players(),
            final(self)@.same_shape(old(self)@),
            final(self)@.all_players().len() == all@.len(),
            forall|k: int|
                0 <= k < all@.len() ==> final(self)@.all_players()[k] == final(
                    #[trigger] all@[k]
                )@,
    {
        let ghost before = self@;
        let mut entries = each_mut(&mut self.0);
        let ghost every = entries@;
        let count = entries.len();
        let mut all: Vec<&mut Player> = Vec::new();
        let mut t: usize = 0;
        proof {
            before.lemma_players_of_first(0);
            assert(held_by(all@) =~= before.players_of_first(0));
        }
        while entries.len() > 0
            invariant
                t + entries@.len() == every.len(),
                every.len() == before.teams.len(),
                every.len() == count,
                entries@ == every.subrange(t as int, every.len() as int),
                forall|s: int|
                    0 <= s < every.len() ==> (*#[trigger] every[s]).model() == before.teams[s],
                held_by(all@) == before.players_of_first(t as int),
                forall|s: int|
                    0 <= s < t ==> {
                        &&& (#[trigger] final(every[s])).name@ == before.teams[s].name
                        &&& final(every[s]).team@.honor == before.teams[s].team.honor
                        &&& final(every[s]).team@.players.len()
                            == before.teams[s].team.players.len()
                    },
                forall|s: int|
                    0 <= s < t ==> (#[trigger] before.players_of_first(s)).len()
                        + before.teams[s].team.players.len() <= all@.len(),
                forall|s: int, i: int|
                    0 <= s < t && 0 <= i < before.teams[s].team.players.len() ==> (
                    #[trigger] final(every[s]).team@.players[i]) == final(
                        all@[before.players_of_first(s).len() + i]
                    )@,
            decreases entries@.len(),
        {
            let ghost so_far = all@;
            let ghost done = t as int;
            let entry = entries.remove(0);
            assert(entry == every[done]);
            let mut roster = entry.team.players.players_mut();
            let ghost added = roster@;
            all.append(&mut roster);
            t += 1;
            proof {
                before.lemma_players_of_first(done);
                assert(all@ == so_far + added);
                assert(held_by(all@) =~= held_by(so_far) + held_by(added));
                assert(entries@ =~= every.subrange(done + 1, every.len() as int));
                let start = before.players_of_first(done).len();
                assert(start == held_by(so_far).len());
                assert forall|s: int, i: int|
                    0 <= s < t && 0 <= i < before.teams[s].team.players.len() implies (
                    #[trigger] final(every[s]).team@.players[i]) == final(
                        all@[before.players_of_first(s).len() + i]
                    )@ by {
                    if s < done {
                        assert(before.players_of_first(s).len() + i < so_far.len());
                        assert(all@[before.players_of_first(s).len() + i]
                            == so_far[before.players_of_first(s).len() + i]);
                    } else {
                        assert(all@[start + i] == added[i]);
                    }
                }
            }
        }
        proof {
            let after = after_borrow(self.0)@.map_values(|entry: Entry| entry.model());
            let ledger = LedgerView { teams: after };
            before.lemma_players_of_first(before.teams.len() as int);
            assert forall|s: int| 0 <= s < after.len() implies #[trigger] after[s] == final(
                every[s]
            ).model() by {
                assert(after_borrow(self.0)@[s] == *final(every[s]));
            }
            assert(ledger.same_shape(before));
            ledger.lemma_players_of_first(ledger.teams.len() as int);
            ledger.lemma_same_layout_counts(before, ledger.teams.len() as int);
            assert forall|k: int| 0 <= k < all@.len() implies ledger.all_players()[k] == final(
                #[trigger] all@[k]
            )@ by {
                ledger.lemma_place_of(ledger.teams.len() as int, k);
                let (s, i) = choose|s: int, i: int|
                    {
                        &&& 0 <= s < ledger.teams.len()
                        &&& #[trigger] ledger.occupied(s, i)
                        &&& k == ledger.players_of_first(s).len() + i
                        &&& ledger.players_of_first(ledger.teams.len() as int)[k] == ledger.at(
                            s,
                            i,
                        )
                    };
                ledger.lemma_same_layout_counts(before, s);
                assert(before.players_of_first(s).len() + before.teams[s].team.players.len()
                    <= all@.len());
                assert(ledger.at(s, i) == final(every[s]).team@.players[i]);
            }
        }
        all
    }

    /// All the players: those of the first team in their order, then those of
    /// the second, and so on.
    pub fn players(&self) -> (all: Vec<&Player>)
        ensures
            all@.map_values(|player: &Player| player@) == self@.all_players(),
    {
        let mut all: Vec<&Player> = Vec::new();
        let mut t: usize = 0;
        let ghost rosters = self@.teams.map_values(|named: NamedTeam| named.team.players);
        assert(rosters.take(0) =~= Seq::<Seq<PlayerView>>::empty());
        assert(all@.map_values(|player: &Player| player@) =~= Seq::<PlayerView>::empty());
        while t < self.0.len()
            invariant
                t <= self.0.len(),
                rosters.len() == self.0.len(),
                rosters == self@.teams.map_values(|named: NamedTeam| named.team.players),
                all@.map_values(|player: &Player| player@) == rosters.take(t as int).flatten(),
            decreases self.0.len() - t,
        {
            let roster = self.0[t].team.players().players();
            let ghost before = all@.map_values(|player: &Player| player@);
            let ghost current = rosters[t as int];
            let mut i: usize = 0;
            assert(before + current.take(0) =~= before);
            while i < roster.len()
                invariant
                    i <= roster.len(),
                    roster@.len() == current.len(),
                    forall|j: int| 0 <= j < roster@.len() ==> (#[trigger] roster@[j])@ == current[j],
                    all@.map_values(|player: &Player| player@) == before + current.take(i as int),
                decreases roster.len() - i,
            {
                let ghost so_far = all@;
                all.push(roster[i]);
                assert(all@.map_values(|player: &Player| player@) =~= before + current.take(
                    i + 1,
                )) by {
                    assert(all@ == so_far.push(roster@[i as int]));
                    assert(current.take(i + 1) =~= current.take(i as int).push(current[i as int]));
                    assert(all@.map_values(|player: &Player| player@) =~= so_far.map_values(
                        |player: &Player| player@,
                    ).push(roster@[i as int]@));
                }
                i += 1;
            }
            proof {
                assert(current.take(i as int) =~= current);
                assert(rosters.take(t + 1) =~= rosters.take(t as int).push(current));
                rosters.take(t as int).lemma_flatten_push(current);
            }
            t += 1;
        }
        assert(rosters.take(t as int) =~= rosters);
        all
    }
}

} // verus!
