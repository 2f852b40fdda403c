//! What an attack does to the state of the teams: who stands where in it, how
//! strong each side is, who wins, and what it costs whom.

use crate::gamestate::players::PlayerView;
use crate::gamestate::power::PowerType;
use crate::gamestate::teams::{LedgerView, NamedTeam, TeamView};
use vstd::prelude::*;

verus! {

/// The part that a player has in an attack.
#[derive(Copy, Clone, Debug, PartialEq, Eq, Structural)]
pub enum Standing {
    PrimaryAttacker,
    AttackerAssist,
    PrimaryDefender,
    DefenderAssist,
    Bystander,
}

/// The model of one side of an attack.
pub struct SideView {
    pub primary: Seq<char>,
    pub assists: Seq<Seq<char>>,
    pub power_type: PowerType,
    pub for_team: Seq<char>,
}

/// The model of an [`Attack`].
pub struct AttackView {
    pub attackers: SideView,
    pub defenders: SideView,
}

impl AttackView {
    /// The part of the player called `name`. A name that stands on several
    /// lists counts where it stands first: as the one who attacks, as one who
    /// assists the attack, as the one attacked, as one who assists the defence.
    pub open spec fn standing(self, name: Seq<char>) -> Standing {
        if name == self.attackers.primary {
            Standing::PrimaryAttacker
        } else if self.attackers.assists.contains(name) {
            Standing::AttackerAssist
        } else if name == self.defenders.primary {
            Standing::PrimaryDefender
        } else if self.defenders.assists.contains(name) {
            Standing::DefenderAssist
        } else {
            Standing::Bystander
        }
    }

    /// What `player` adds to the strength of the attack (`attacking`) or of the
    /// defence: the strength in the side's colour, for a player of that side.
    pub open spec fn share(self, player: PlayerView, attacking: bool) -> int {
        match self.standing(player.name) {
            Standing::PrimaryAttacker | Standing::AttackerAssist => if attacking {
                player.power.strength(self.attackers.power_type)
            } else {
                0
            },
            Standing::PrimaryDefender | Standing::DefenderAssist => if attacking {
                0
            } else {
                player.power.strength(self.defenders.power_type)
            },
            Standing::Bystander => 0,
        }
    }

    /// The sum of the shares of `players`.
    pub open spec fn strength_among(self, players: Seq<PlayerView>, attacking: bool) -> int
        decreases players.len(),
    {
        if players.len() == 0 {
            0
        } else {
            self.strength_among(players.drop_last(), attacking) + self.share(
                players.last(),
                attacking,
            )
        }
    }

    /// The strength of the attack: the sum, over the attacker and the assists
    /// of the attack, of the strength in the colour of the attack.
    pub open spec fn attack_strength(self, ledger: LedgerView) -> int {
        self.strength_among(ledger.all_players(), true)
    }

    /// The strength of the defence: the sum, over the defender and the assists
    /// of the defence, of the strength in the colour of the defence.
    pub open spec fn defense_strength(self, ledger: LedgerView) -> int {
        self.strength_among(ledger.all_players(), false)
    }

    /// What the colour of the attack is worth against the colour of the defence.
    pub open spec fn bonus(self) -> int {
        self.attackers.power_type.spec_relative_advantage(self.defenders.power_type)
    }

    /// The attack succeeds where its strength and bonus exceed the strength of
    /// the defence. A tie goes to the defence.
    pub open spec fn succeeds(self, ledger: LedgerView) -> bool {
        self.attack_strength(ledger) + self.bonus() > self.defense_strength(ledger)
    }

    /// The colour that the player called `name` spends in the attack, if any:
    /// every assist spends the colour of its side, and so does the primary of
    /// the side that loses.
    pub open spec fn cost(self, ledger: LedgerView, name: Seq<char>) -> Option<PowerType> {
        match self.standing(name) {
            Standing::PrimaryAttacker => if self.succeeds(ledger) {
                None
            } else {
                Some(self.attackers.power_type)
            },
            Standing::AttackerAssist => Some(self.attackers.power_type),
            Standing::PrimaryDefender => if self.succeeds(ledger) {
                Some(self.defenders.power_type)
            } else {
                None
            },
            Standing::DefenderAssist => Some(self.defenders.power_type),
            Standing::Bystander => None,
        }
    }

    /// The team that wins.
    pub open spec fn winning_team(self, ledger: LedgerView) -> Seq<char> {
        if self.succeeds(ledger) {
            self.attackers.for_team
        } else {
            self.defenders.for_team
        }
    }

    /// The honor that the winning team gains: the strength of the other side.
    pub open spec fn honor_won(self, ledger: LedgerView) -> int {
        if self.succeeds(ledger) {
            self.defense_strength(ledger)
        } else {
            self.attack_strength(ledger)
        }
    }

    /// `player` after the attack.
    pub open spec fn player_after(self, ledger: LedgerView, player: PlayerView) -> PlayerView {
        match self.cost(ledger, player.name) {
            Some(ptype) => player.without(ptype),
            None => player,
        }
    }

    /// The honor of the team called `team` after the attack, where it was
    /// `honor` before.
    pub open spec fn honor_after(self, ledger: LedgerView, team: Seq<char>, honor: int) -> int {
        if team == self.winning_team(ledger) {
            honor + self.honor_won(ledger)
        } else {
            honor
        }
    }

    /// The ledger after the attack.
    pub open spec fn resolve(self, ledger: LedgerView) -> LedgerView {
        LedgerView {
            teams: Seq::new(
                ledger.teams.len(),
                |t: int|
                    NamedTeam {
                        name: ledger.teams[t].name,
                        team: TeamView {
                            players: Seq::new(
                                ledger.teams[t].team.players.len(),
                                |i: int| self.player_after(ledger, ledger.at(t, i)),
                            ),
                            honor: self.honor_after(
                                ledger,
                                ledger.teams[t].name,
                                ledger.teams[t].team.honor,
                            ),
                        },
                    },
            ),
        }
    }

    /// Whether the attack can be resolved against `ledger`: both primaries are
    /// players of the ledger, the one attacked stands on no list of the
    /// attack, the team that wins is a team of the ledger, and the strengths
    /// and the winner's new honor are numbers that the counters can hold.
    pub open spec fn resolvable(self, ledger: LedgerView) -> bool {
        &&& ledger.wf()
        &&& ledger.has_player(self.attackers.primary)
        &&& ledger.has_player(self.defenders.primary)
        &&& self.standing(self.defenders.primary) == Standing::PrimaryDefender
        &&& i16::MIN <= self.attack_strength(ledger) <= i16::MAX
        &&& i16::MIN <= self.defense_strength(ledger) <= i16::MAX
        &&& ledger.has_team(self.winning_team(ledger))
        &&& i16::MIN <= ledger.team(self.winning_team(ledger)).honor + self.honor_won(ledger)
            <= i16::MAX
    }

    /// Adding one player to a sequence adds that player's share to its
    /// strength.
    pub proof fn lemma_strength_push(self, players: Seq<PlayerView>, player: PlayerView, attacking: bool)
        ensures
            self.strength_among(players.push(player), attacking) == self.strength_among(
                players,
                attacking,
            ) + self.share(player, attacking),
    {
        assert(players.push(player).drop_last() =~= players);
    }
}

/// Spending colours as an attack demands keeps a ledger well formed.
pub proof fn lemma_resolved_wf(ledger: LedgerView, attack: AttackView, after: LedgerView)
    requires
        ledger.wf(),
        after.same_layout(ledger),
        forall|t: int, i: int|
            ledger.occupied(t, i) ==> #[trigger] after.at(t, i) == attack.player_after(
                ledger,
                ledger.at(t, i),
            ),
    ensures
        after.wf(),
{
    assert forall|t: int, i: int| after.occupied(t, i) implies (#[trigger] after.at(t, i)).name
        == ledger.at(t, i).name && after.at(t, i).wf() by {
        assert(ledger.occupied(t, i));
        assert(ledger.at(t, i).wf());
        let before = ledger.at(t, i);
        assert(after.at(t, i) == attack.player_after(ledger, before));
        match attack.cost(ledger, before.name) {
            Some(ptype) => {
                assert forall|q: PowerType| #[trigger]
                    before.power.without(ptype).strength(q) >= 0 by {
                    assert(before.power.strength(q) >= 0);
                }
            },
            None => {},
        }
    }
    assert forall|s: int, t: int| 0 <= s < t < after.teams.len() implies (
    #[trigger] after.teams[s]).name != (#[trigger] after.teams[t]).name by {
        assert(ledger.teams[s].name != ledger.teams[t].name);
    }
    assert forall|s: int, i: int, t: int, j: int|
        after.occupied(s, i) && after.occupied(t, j) && (#[trigger] after.at(s, i)).name == (
        #[trigger] after.at(t, j)).name implies s == t && i == j by {
        assert(ledger.occupied(s, i) && ledger.occupied(t, j));
        assert(ledger.at(s, i).name == ledger.at(t, j).name);
    }
}

/// A tie goes to the defence: where the strength of the attack with its bonus
/// equals the strength of the defence, the attack does not succeed, the
/// defenders' team wins, the attacker spends the colour of the attack, and the
/// one attacked spends nothing.
pub proof fn lemma_tie_favours_defence(attack: AttackView, ledger: LedgerView)
    requires
        attack.attack_strength(ledger) + attack.bonus() == attack.defense_strength(ledger),
    ensures
        !attack.succeeds(ledger),
        attack.winning_team(ledger) == attack.defenders.for_team,
        attack.honor_won(ledger) == attack.attack_strength(ledger),
        attack.cost(ledger, attack.attackers.primary) == Some(attack.attackers.power_type),
        attack.standing(attack.defenders.primary) == Standing::PrimaryDefender ==> attack.cost(
            ledger,
            attack.defenders.primary,
        ) is None,
{
}

/// Resolving an attack on a well-formed ledger leaves a well-formed ledger.
pub proof fn lemma_resolve_wf(attack: AttackView, ledger: LedgerView)
    requires
        ledger.wf(),
    ensures
        attack.resolve(ledger).wf(),
{
    let after = attack.resolve(ledger);
    assert(after.same_layout(ledger));
    lemma_resolved_wf(ledger, attack, after);
}

/// Resolving an attack keeps every player in place, under the same name, and
/// takes from each what the attack costs that player.
pub proof fn lemma_resolve_players(attack: AttackView, ledger: LedgerView, name: Seq<char>)
    requires
        ledger.wf(),
        ledger.has_player(name),
    ensures
        attack.resolve(ledger).wf(),
        attack.resolve(ledger).has_player(name),
        attack.resolve(ledger).player(name) == attack.player_after(ledger, ledger.player(name)),
        attack.resolve(ledger).team_of(name) == ledger.team_of(name),
{
    let after = attack.resolve(ledger);
    assert(after.same_layout(ledger));
    lemma_resolved_wf(ledger, attack, after);
    ledger.lemma_located(name);
    let (t, i) = ledger.locate(name);
    assert(after.occupied(t, i));
    assert(after.at(t, i).name == name);
    after.lemma_locate(t, i);
}

/// What an attack costs: after it is resolved, every assist of either side has
/// lost the colour that its side fought with, and nothing else; so has the
/// primary of the side that lost; and the primary of the side that won holds
/// what it held before.
pub proof fn lemma_assists_pay_and_winner_is_spared(
    attack: AttackView,
    ledger: LedgerView,
    name: Seq<char>,
)
    requires
        ledger.wf(),
        ledger.has_player(name),
    ensures
        ({
            let before = ledger.player(name).power;
            let after = attack.resolve(ledger).player(name).power;
            let att_power = attack.attackers.power_type;
            let def_power = attack.defenders.power_type;
            match attack.standing(name) {
                Standing::AttackerAssist => after == before.without(att_power),
                Standing::DefenderAssist => after == before.without(def_power),
                Standing::PrimaryAttacker => after == if attack.succeeds(ledger) {
                    before
                } else {
                    before.without(att_power)
                },
                Standing::PrimaryDefender => after == if attack.succeeds(ledger) {
                    before.without(def_power)
                } else {
                    before
                },
                Standing::Bystander => after == before,
            }
        }),
{
    lemma_resolve_players(attack, ledger, name);
    ledger.lemma_located(name);
}

/// Honor is only won: resolving an attack changes the honor of the winning
/// team alone, by the strength of the side that lost.
pub proof fn lemma_resolve_honor(attack: AttackView, ledger: LedgerView, t: int)
    requires
        0 <= t < ledger.teams.len(),
    ensures
        attack.resolve(ledger).teams.len() == ledger.teams.len(),
        attack.resolve(ledger).teams[t].name == ledger.teams[t].name,
        attack.resolve(ledger).teams[t].team.honor == if ledger.teams[t].name
            == attack.winning_team(ledger) {
            ledger.teams[t].team.honor + attack.honor_won(ledger)
        } else {
            ledger.teams[t].team.honor
        },
{
}

/// The strength of players with well-formed holdings is not negative.
pub proof fn lemma_strength_not_negative(
    attack: AttackView,
    players: Seq<PlayerView>,
    attacking: bool,
)
    requires
        forall|i: int| 0 <= i < players.len() ==> (#[trigger] players[i]).wf(),
    ensures
        attack.strength_among(players, attacking) >= 0,
    decreases players.len(),
{
    if players.len() > 0 {
        lemma_strength_not_negative(attack, players.drop_last(), attacking);
        let last = players.last();
        assert(last.wf());
        assert(last.power.strength(attack.attackers.power_type) >= 0);
        assert(last.power.strength(attack.defenders.power_type) >= 0);
    }
}

/// Honor is never lost: resolving an attack on a well-formed ledger leaves
/// every team with the honor it had, or more.
pub proof fn lemma_honor_never_decreases(attack: AttackView, ledger: LedgerView, t: int)
    requires
        ledger.wf(),
        0 <= t < ledger.teams.len(),
    ensures
        attack.honor_won(ledger) >= 0,
        attack.resolve(ledger).teams[t].team.honor >= ledger.teams[t].team.honor,
{
    let n = ledger.teams.len() as int;
    ledger.lemma_players_of_first(n);
    ledger.lemma_players_of_first_wf(n);
    lemma_strength_not_negative(attack, ledger.all_players(), true);
    lemma_strength_not_negative(attack, ledger.all_players(), false);
}

} // verus!
