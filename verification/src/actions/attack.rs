//! Attacks: how one is declared in stages, and how it is resolved against the
//! state of the teams.

use crate::actions::resolution::{lemma_resolved_wf, AttackView, SideView, Standing};
use crate::gamestate::players::{contains_name, pname_views, PName, PlayerView};
use crate::gamestate::power::PowerType;
use crate::gamestate::teams::{slots_hold, LedgerView, Slot, TName, TeamsByName};
use crate::random::choose_one;
use vstd::prelude::*;

verus! {

/// Why an attack cannot be declared, or a combatant cannot join it.
#[derive(Copy, Clone, Debug, PartialEq, Eq, Structural)]
pub enum InvalidAttackErr {
    CombatantNotFound,
    CombatantMissingPowerType,
    DuplicateCombatant,
    AttackerAlreadyDefending,
    AttackerIsDead,
}

/// The sum, over the places `slots`, of the strength in the colour `ptype` of
/// the player of `ledger` at the place.
pub open spec fn slots_strength(ledger: LedgerView, slots: Seq<Slot>, ptype: PowerType) -> int
    decreases slots.len(),
{
    if slots.len() == 0 {
        0
    } else {
        slots_strength(ledger, slots.drop_last(), ptype) + ledger.at(
            slots.last().team as int,
            slots.last().place as int,
        ).power.strength(ptype)
    }
}

proof fn lemma_slots_strength_push(ledger: LedgerView, slots: Seq<Slot>, slot: Slot, ptype: PowerType)
    ensures
        slots_strength(ledger, slots.push(slot), ptype) == slots_strength(ledger, slots, ptype)
            + ledger.at(slot.team as int, slot.place as int).power.strength(ptype),
{
    assert(slots.push(slot).drop_last() =~= slots);
}

/// One side of an attack, by name.
#[derive(Debug)]
struct NamedCombatants {
    primary: PName,
    assists: Vec<PName>,
    power_type: PowerType,
    for_team: TName,
}

impl NamedCombatants {
    spec fn model(self) -> SideView {
        SideView {
            primary: self.primary@,
            assists: pname_views(self.assists@),
            power_type: self.power_type,
            for_team: self.for_team@,
        }
    }
}

/// One side of an attack, by the places that its players have in a ledger.
struct CombatantRefs {
    primary: Slot,
    assists: Vec<Slot>,
    power_type: PowerType,
}

impl CombatantRefs {
    /// Every place of the side holds a player of `ledger`.
    spec fn fits(&self, ledger: LedgerView) -> bool {
        &&& ledger.occupied(self.primary.team as int, self.primary.place as int)
        &&& forall|k: int|
            0 <= k < self.assists@.len() ==> ledger.occupied(
                (#[trigger] self.assists@[k]).team as int,
                self.assists@[k].place as int,
            )
    }

    spec fn spec_strength(&self, ledger: LedgerView) -> int {
        ledger.at(self.primary.team as int, self.primary.place as int).power.strength(
            self.power_type,
        ) + slots_strength(ledger, self.assists@, self.power_type)
    }

    /// The strength of the side, in a number wide enough for any side.
    fn wide_strength(&self, state: &TeamsByName) -> (total: i128)
        requires
            self.fits(state@),
        ensures
            total == self.spec_strength(state@),
    {
        let mut sum: i128 = state.player_at(self.primary).strength(self.power_type) as i128;
        let mut k: usize = 0;
        while k < self.assists.len()
            invariant
                k <= self.assists@.len(),
                self.fits(state@),
                sum == state@.at(
                    self.primary.team as int,
                    self.primary.place as int,
                ).power.strength(self.power_type) + slots_strength(
                    state@,
                    self.assists@.take(k as int),
                    self.power_type,
                ),
                -128 * (k + 1) <= sum <= 127 * (k + 1),
            decreases self.assists@.len() - k,
        {
            let slot = self.assists[k];
            proof {
                assert(self.assists@.take(k + 1) =~= self.assists@.take(k as int).push(slot));
                lemma_slots_strength_push(
                    state@,
                    self.assists@.take(k as int),
                    slot,
                    self.power_type,
                );
            }
            sum = sum + state.player_at(slot).strength(self.power_type) as i128;
            k += 1;
        }
        assert(self.assists@.take(k as int) =~= self.assists@);
        sum
    }

    /// The strength of the side: the strength of its primary and of each
    /// assist, in the side's colour.
    fn strength(&self, state: &TeamsByName) -> (total: i16)
        requires
            self.fits(state@),
            i16::MIN <= self.spec_strength(state@) <= i16::MAX,
        ensures
            total == self.spec_strength(state@),
    {
        self.wide_strength(state) as i16
    }
}

/// An attack that has been declared in full: who attacks whom, who assists
/// either side, and the colour in which each side fights.
#[derive(Debug)]
pub struct Attack {
    attackers: NamedCombatants,
    defenders: NamedCombatants,
}

impl View for Attack {
    type V = AttackView;

    closed spec fn view(&self) -> AttackView {
        AttackView { attackers: self.attackers.model(), defenders: self.defenders.model() }
    }
}

/// The model of an [`AttackOutcome`].
pub struct OutcomeView {
    pub attack: AttackView,
    pub new_state: LedgerView,
}

/// An attack that has been resolved, and the state of the teams after it.
#[derive(Debug)]
pub struct AttackOutcome {
    attack: Attack,
    pub new_state: TeamsByName,
}

impl View for AttackOutcome {
    type V = OutcomeView;

    closed spec fn view(&self) -> OutcomeView {
        OutcomeView { attack: self.attack@, new_state: self.new_state@ }
    }
}

impl AttackOutcome {
    /// The attack that was resolved.
    pub fn attack(&self) -> (attack: &Attack)
        ensures
            attack@ == self@.attack,
    {
        &self.attack
    }

    /// The state of the teams after the attack.
    pub fn new_state(&self) -> (state: &TeamsByName)
        ensures
            state@ == self@.new_state,
    {
        &self.new_state
    }

    /// The state of the teams after the attack, to be changed in place.
    pub fn new_state_mut(&mut self) -> (state: &mut TeamsByName)
        ensures
            state@ == old(self)@.new_state,
            final(self)@ == (OutcomeView { new_state: final(state)@, ..old(self)@ }),
    {
        &mut self.new_state
    }
}

/// Whether the place `(s, j)` comes before the place `(t, i)` in the order of
/// the teams and of their players.
spec fn comes_before(s: int, j: int, t: int, i: int) -> bool {
    s < t || (s == t && j < i)
}

/// What the primary found so far adds to the strength of its side.
spec fn primary_share(ledger: LedgerView, primary: Option<Slot>, ptype: PowerType) -> int {
    match primary {
        Some(slot) => ledger.at(slot.team as int, slot.place as int).power.strength(ptype),
        None => 0,
    }
}

impl Attack {
    /// The colour in which the attackers fight.
    pub fn attack_power(&self) -> (ptype: PowerType)
        ensures
            ptype == self@.attackers.power_type,
    {
        self.attackers.power_type
    }

    /// The colour in which the defenders fight.
    pub fn defense_power(&self) -> (ptype: PowerType)
        ensures
            ptype == self@.defenders.power_type,
    {
        self.defenders.power_type
    }

    /// The one who attacks.
    pub fn attacker(&self) -> (name: &PName)
        ensures
            name@ == self@.attackers.primary,
    {
        &self.attackers.primary
    }

    /// Those who assist the attack.
    pub fn attacker_assists(&self) -> (names: &Vec<PName>)
        ensures
            pname_views(names@) == self@.attackers.assists,
    {
        &self.attackers.assists
    }

    /// The team that the attackers fight for.
    pub fn attacker_team(&self) -> (team: &TName)
        ensures
            team@ == self@.attackers.for_team,
    {
        &self.attackers.for_team
    }

    /// The one attacked.
    pub fn defender(&self) -> (name: &PName)
        ensures
            name@ == self@.defenders.primary,
    {
        &self.defenders.primary
    }

    /// Those who assist the defence.
    pub fn defender_assists(&self) -> (names: &Vec<PName>)
        ensures
            pname_views(names@) == self@.defenders.assists,
    {
        &self.defenders.assists
    }

    /// The team that the defenders fight for.
    pub fn defender_team(&self) -> (team: &TName)
        ensures
            team@ == self@.defenders.for_team,
    {
        &self.defenders.for_team
    }

    fn attack_bonus(&self) -> (bonus: i16)
        ensures
            bonus == self@.bonus(),
    {
        self.attackers.power_type.relative_advantage(self.defenders.power_type)
    }

    /// The part that the player called `name` has in the attack.
    pub fn standing_of(&self, name: &PName) -> (standing: Standing)
        ensures
            standing == self@.standing(name@),
    {
        if *name == self.attackers.primary {
            Standing::PrimaryAttacker
        } else if contains_name(&self.attackers.assists, name) {
            Standing::AttackerAssist
        } else if *name == self.defenders.primary {
            Standing::PrimaryDefender
        } else if contains_name(&self.defenders.assists, name) {
            Standing::DefenderAssist
        } else {
            Standing::Bystander
        }
    }

    /// Resolves the attack against `initial_state`, which is left as it is: the
    /// outcome holds the attack and the state of the teams after it.
    pub fn outcome(self, initial_state: &TeamsByName) -> (result: AttackOutcome)
        requires
            self@.resolvable(initial_state@),
        ensures
            result@.attack == self@,
            result@.new_state == self@.resolve(initial_state@),
    {
        let ghost ledger = initial_state@;
        let ghost attack = self@;
        let mut new_state = initial_state.clone();
        let (attackers, defenders) = self.combatants_by_ref(&new_state);
        let ghost attacker_slot = attackers.primary;
        let ghost defender_slot = defenders.primary;
        let ghost attacker_assists = attackers.assists@;
        let ghost defender_assists = defenders.assists@;
        let attack_strength = attackers.strength(&new_state);
        let defense_strength = defenders.strength(&new_state);
        // A tie goes to the defence.
        let attack_succeeds = attack_strength as i32 + self.attack_bonus() as i32
            > defense_strength as i32;
        let (losers, win_assists, winning_power, winning_team, honor_won) = if attack_succeeds {
            (
                defenders,
                attackers.assists,
                attackers.power_type,
                &self.attackers.for_team,
                defense_strength,
            )
        } else {
            (
                attackers,
                defenders.assists,
                defenders.power_type,
                &self.defenders.for_team,
                attack_strength,
            )
        };
        // The primary of the side that lost always spends the colour.
        new_state.lose_power_at(losers.primary, losers.power_type);
        let ghost first = new_state@;
        proof {
            ledger.lemma_with_player(
                losers.primary.team as int,
                losers.primary.place as int,
                ledger.at(losers.primary.team as int, losers.primary.place as int).without(
                    losers.power_type,
                ),
            );
        }
        // The assists of both sides spend theirs.
        new_state.lose_power_all(&losers.assists, losers.power_type);
        let ghost second = new_state@;
        new_state.lose_power_all(&win_assists, winning_power);
        let ghost third = new_state@;
        proof {
            assert forall|t: int, i: int| ledger.occupied(t, i) implies #[trigger] third.at(t, i)
                == attack.player_after(ledger, ledger.at(t, i)) by {
                ledger.lemma_locate(t, i);
                ledger.lemma_locate(attacker_slot.team as int, attacker_slot.place as int);
                ledger.lemma_locate(defender_slot.team as int, defender_slot.place as int);
                assert(first.occupied(t, i));
                assert(second.occupied(t, i));
                let part = attack.standing(ledger.at(t, i).name);
                assert(slots_hold(attacker_assists, t, i) <==> part == Standing::AttackerAssist);
                assert(slots_hold(defender_assists, t, i) <==> part == Standing::DefenderAssist);
            }
            lemma_resolved_wf(ledger, attack, third);
            third.lemma_team_index(ledger.team_index(winning_team@));
            ledger.lemma_team_index(ledger.team_index(winning_team@));
        }
        new_state.gain_honor(winning_team, honor_won);
        proof {
            let after = attack.resolve(ledger);
            let k = ledger.team_index(winning_team@);
            assert forall|t: int| 0 <= t < ledger.teams.len() implies (#[trigger] ledger.teams[t]).name
                == winning_team@ <==> t == k by {
                ledger.lemma_team_index(t);
            }
            assert(new_state@.same_shape(after));
            assert forall|t: int, i: int| new_state@.occupied(t, i) implies #[trigger] new_state@.at(
                t,
                i,
            ) == after.at(t, i) by {
                assert(third.occupied(t, i));
                assert(new_state@.at(t, i) == third.at(t, i));
            }
            new_state@.lemma_same_players(after);
        }
        AttackOutcome { attack: self, new_state }
    }

    /// Finds the combatants of both sides among the players of `state`: one
    /// pass over all players, each put on the list of the part it has.
    fn combatants_by_ref(&self, state: &TeamsByName) -> (sides: (CombatantRefs, CombatantRefs))
        requires
            state.wf(),
            state@.has_player(self@.attackers.primary),
            state@.has_player(self@.defenders.primary),
            self@.standing(self@.defenders.primary) == Standing::PrimaryDefender,
        ensures
            sides.0.fits(state@),
            sides.1.fits(state@),
            sides.0.power_type == self@.attackers.power_type,
            sides.1.power_type == self@.defenders.power_type,
            state@.at(sides.0.primary.team as int, sides.0.primary.place as int).name
                == self@.attackers.primary,
            state@.at(sides.1.primary.team as int, sides.1.primary.place as int).name
                == self@.defenders.primary,
            forall|t: int, i: int|
                state@.occupied(t, i) ==> (slots_hold(sides.0.assists@, t, i) <==> self@.standing(
                    (#[trigger] state@.at(t, i)).name,
                ) == Standing::AttackerAssist),
            forall|t: int, i: int|
                state@.occupied(t, i) ==> (slots_hold(sides.1.assists@, t, i) <==> self@.standing(
                    (#[trigger] state@.at(t, i)).name,
                ) == Standing::DefenderAssist),
            sides.0.spec_strength(state@) == self@.attack_strength(state@),
            sides.1.spec_strength(state@) == self@.defense_strength(state@),
    {
        let ghost ledger = state@;
        let ghost attack = self@;
        let att_power = self.attackers.power_type;
        let def_power = self.defenders.power_type;
        let mut primary_attacker: Option<Slot> = None;
        let mut primary_defender: Option<Slot> = None;
        let mut attacker_assists: Vec<Slot> = Vec::new();
        let mut defender_assists: Vec<Slot> = Vec::new();
        let ghost mut seen: Seq<PlayerView> = Seq::empty();
        let mut t: usize = 0;
        proof {
            ledger.lemma_players_of_first(0);
        }
        while t < state.team_count()
            invariant
                t <= ledger.teams.len(),
                ledger == state@,
                ledger.wf(),
                attack == self@,
                att_power == attack.attackers.power_type,
                def_power == attack.defenders.power_type,
                seen == ledger.players_of_first(t as int),
                scanned(
                    ledger,
                    attack,
                    t as int,
                    0,
                    primary_attacker,
                    attacker_assists@,
                    primary_defender,
                    defender_assists@,
                ),
                primary_share(ledger, primary_attacker, att_power) + slots_strength(
                    ledger,
                    attacker_assists@,
                    att_power,
                ) == attack.strength_among(seen, true),
                primary_share(ledger, primary_defender, def_power) + slots_strength(
                    ledger,
                    defender_assists@,
                    def_power,
                ) == attack.strength_among(seen, false),
            decreases ledger.teams.len() - t,
        {
            let size = state.team_size(t);
            let ghost roster = ledger.teams[t as int].team.players;
            let ghost before = seen;
            let mut i: usize = 0;
            assert(before + roster.take(0) =~= before);
            while i < size
                invariant
                    t < ledger.teams.len(),
                    i <= size,
                    size == roster.len(),
                    roster == ledger.teams[t as int].team.players,
                    ledger == state@,
                    ledger.wf(),
                    attack == self@,
                    att_power == attack.attackers.power_type,
                    def_power == attack.defenders.power_type,
                    seen == before + roster.take(i as int),
                    scanned(
                        ledger,
                        attack,
                        t as int,
                        i as int,
                        primary_attacker,
                        attacker_assists@,
                        primary_defender,
                        defender_assists@,
                    ),
                    primary_share(ledger, primary_attacker, att_power) + slots_strength(
                        ledger,
                        attacker_assists@,
                        att_power,
                    ) == attack.strength_among(seen, true),
                    primary_share(ledger, primary_defender, def_power) + slots_strength(
                        ledger,
                        defender_assists@,
                        def_power,
                    ) == attack.strength_among(seen, false),
                decreases size - i,
            {
                let slot = Slot { team: t, place: i };
                let player = state.player_at(slot);
                let standing = self.standing_of(player.name());
                let ghost old_att = attacker_assists@;
                let ghost old_def = defender_assists@;
                let ghost old_pa = primary_attacker;
                let ghost old_pd = primary_defender;
                proof {
                    assert(ledger.occupied(t as int, i as int));
                    attack.lemma_strength_push(seen, player@, true);
                    attack.lemma_strength_push(seen, player@, false);
                    assert(roster.take(i + 1) =~= roster.take(i as int).push(roster[i as int]));
                    assert(before + roster.take(i + 1) =~= seen.push(player@));
                    seen = seen.push(player@);
                }
                match standing {
                    Standing::PrimaryAttacker => {
                        proof {
                            if let Some(found) = primary_attacker {
                                assert(ledger.at(found.team as int, found.place as int).name
                                    == ledger.at(t as int, i as int).name);
                            }
                        }
                        primary_attacker = Some(slot);
                    },
                    Standing::AttackerAssist => {
                        attacker_assists.push(slot);
                        proof {
                            lemma_slots_strength_push(ledger, old_att, slot, att_power);
                        }
                    },
                    Standing::PrimaryDefender => {
                        proof {
                            if let Some(found) = primary_defender {
                                assert(ledger.at(found.team as int, found.place as int).name
                                    == ledger.at(t as int, i as int).name);
                            }
                        }
                        primary_defender = Some(slot);
                    },
                    Standing::DefenderAssist => {
                        defender_assists.push(slot);
                        proof {
                            lemma_slots_strength_push(ledger, old_def, slot, def_power);
                        }
                    },
                    Standing::Bystander => {},
                }
                proof {
                    lemma_scanned_step(
                        ledger,
                        attack,
                        t as int,
                        i as int,
                        old_pa,
                        old_att,
                        old_pd,
                        old_def,
                        primary_attacker,
                        attacker_assists@,
                        primary_defender,
                        defender_assists@,
                    );
                }
                i += 1;
            }
            proof {
                assert(roster.take(i as int) =~= roster);
                ledger.lemma_players_of_first(t as int);
                lemma_scanned_next_team(
                    ledger,
                    attack,
                    t as int,
                    primary_attacker,
                    attacker_assists@,
                    primary_defender,
                    defender_assists@,
                );
            }
            t += 1;
        }
        proof {
            ledger.lemma_players_of_first(t as int);
            lemma_scanned_all(
                ledger,
                attack,
                primary_attacker,
                attacker_assists@,
                primary_defender,
                defender_assists@,
            );
        }
        let primary_attacker = match primary_attacker {
            Some(slot) => slot,
            None => unreached(),
        };
        let primary_defender = match primary_defender {
            Some(slot) => slot,
            None => unreached(),
        };
        (
            CombatantRefs {
                primary: primary_attacker,
                assists: attacker_assists,
                power_type: att_power,
            },
            CombatantRefs {
                primary: primary_defender,
                assists: defender_assists,
                power_type: def_power,
            },
        )
    }
}

/// What the pass over the players has found once it has looked at every place
/// before `(t, i)`: each list holds the places of its part, and no others.
spec fn scanned(
    ledger: LedgerView,
    attack: AttackView,
    t: int,
    i: int,
    primary_attacker: Option<Slot>,
    attacker_assists: Seq<Slot>,
    primary_defender: Option<Slot>,
    defender_assists: Seq<Slot>,
) -> bool {
    &&& found_primary(ledger, attack, t, i, primary_attacker, Standing::PrimaryAttacker)
    &&& found_primary(ledger, attack, t, i, primary_defender, Standing::PrimaryDefender)
    &&& found_assists(ledger, attack, t, i, attacker_assists, Standing::AttackerAssist)
    &&& found_assists(ledger, attack, t, i, defender_assists, Standing::DefenderAssist)
}

spec fn found_primary(
    ledger: LedgerView,
    attack: AttackView,
    t: int,
    i: int,
    primary: Option<Slot>,
    part: Standing,
) -> bool {
    match primary {
        Some(slot) => {
            &&& ledger.occupied(slot.team as int, slot.place as int)
            &&& comes_before(slot.team as int, slot.place as int, t, i)
            &&& attack.standing(ledger.at(slot.team as int, slot.place as int).name) == part
        },
        None => forall|s: int, j: int|
            ledger.occupied(s, j) && comes_before(s, j, t, i) ==> attack.standing(
                (#[trigger] ledger.at(s, j)).name,
            ) != part,
    }
}

spec fn found_assists(
    ledger: LedgerView,
    attack: AttackView,
    t: int,
    i: int,
    assists: Seq<Slot>,
    part: Standing,
) -> bool {
    &&& forall|k: int|
        0 <= k < assists.len() ==> {
            &&& ledger.occupied((#[trigger] assists[k]).team as int, assists[k].place as int)
            &&& comes_before(assists[k].team as int, assists[k].place as int, t, i)
            &&& attack.standing(ledger.at(assists[k].team as int, assists[k].place as int).name)
                == part
        }
    &&& forall|s: int, j: int|
        ledger.occupied(s, j) && comes_before(s, j, t, i) && attack.standing(
            (#[trigger] ledger.at(s, j)).name,
        ) == part ==> slots_hold(assists, s, j)
}

proof fn lemma_found_primary_step(
    ledger: LedgerView,
    attack: AttackView,
    t: int,
    i: int,
    old_primary: Option<Slot>,
    primary: Option<Slot>,
    part: Standing,
)
    requires
        ledger.occupied(t, i),
        found_primary(ledger, attack, t, i, old_primary, part),
        t <= usize::MAX,
        i <= usize::MAX,
        if attack.standing(ledger.at(t, i).name) == part {
            primary == Some(Slot { team: t as usize, place: i as usize })
        } else {
            primary == old_primary
        },
    ensures
        found_primary(ledger, attack, t, i + 1, primary, part),
{
    if attack.standing(ledger.at(t, i).name) != part {
        if old_primary is None {
            assert forall|s: int, j: int|
                ledger.occupied(s, j) && comes_before(s, j, t, i + 1) implies attack.standing(
                (#[trigger] ledger.at(s, j)).name,
            ) != part by {
                if !comes_before(s, j, t, i) {
                    assert(s == t && j == i);
                }
            }
        }
    }
}

proof fn lemma_found_assists_step(
    ledger: LedgerView,
    attack: AttackView,
    t: int,
    i: int,
    old_assists: Seq<Slot>,
    assists: Seq<Slot>,
    part: Standing,
)
    requires
        ledger.occupied(t, i),
        found_assists(ledger, attack, t, i, old_assists, part),
        t <= usize::MAX,
        i <= usize::MAX,
        if attack.standing(ledger.at(t, i).name) == part {
            assists == old_assists.push(Slot { team: t as usize, place: i as usize })
        } else {
            assists == old_assists
        },
    ensures
        found_assists(ledger, attack, t, i + 1, assists, part),
{
    assert forall|s: int, j: int|
        ledger.occupied(s, j) && comes_before(s, j, t, i + 1) && attack.standing(
            (#[trigger] ledger.at(s, j)).name,
        ) == part implies slots_hold(assists, s, j) by {
        if comes_before(s, j, t, i) {
            assert(slots_hold(old_assists, s, j));
            let k = choose|k: int|
                0 <= k < old_assists.len() && (#[trigger] old_assists[k]).team == s
                    && old_assists[k].place == j;
            assert(assists[k].team == s && assists[k].place == j);
        } else {
            assert(s == t && j == i);
            assert(assists[old_assists.len() as int].team == s);
        }
    }
}

proof fn lemma_scanned_step(
    ledger: LedgerView,
    attack: AttackView,
    t: int,
    i: int,
    old_pa: Option<Slot>,
    old_att: Seq<Slot>,
    old_pd: Option<Slot>,
    old_def: Seq<Slot>,
    pa: Option<Slot>,
    att: Seq<Slot>,
    pd: Option<Slot>,
    def: Seq<Slot>,
)
    requires
        ledger.occupied(t, i),
        t <= usize::MAX,
        i <= usize::MAX,
        scanned(ledger, attack, t, i, old_pa, old_att, old_pd, old_def),
        ({
            let slot = Slot { team: t as usize, place: i as usize };
            let part = attack.standing(ledger.at(t, i).name);
            &&& pa == if part == Standing::PrimaryAttacker { Some(slot) } else { old_pa }
            &&& pd == if part == Standing::PrimaryDefender { Some(slot) } else { old_pd }
            &&& att == if part == Standing::AttackerAssist { old_att.push(slot) } else { old_att }
            &&& def == if part == Standing::DefenderAssist { old_def.push(slot) } else { old_def }
        }),
    ensures
        scanned(ledger, attack, t, i + 1, pa, att, pd, def),
{
    lemma_found_primary_step(ledger, attack, t, i, old_pa, pa, Standing::PrimaryAttacker);
    lemma_found_primary_step(ledger, attack, t, i, old_pd, pd, Standing::PrimaryDefender);
    lemma_found_assists_step(ledger, attack, t, i, old_att, att, Standing::AttackerAssist);
    lemma_found_assists_step(ledger, attack, t, i, old_def, def, Standing::DefenderAssist);
}

proof fn lemma_scanned_next_team(
    ledger: LedgerView,
    attack: AttackView,
    t: int,
    pa: Option<Slot>,
    att: Seq<Slot>,
    pd: Option<Slot>,
    def: Seq<Slot>,
)
    requires
        0 <= t < ledger.teams.len(),
        scanned(ledger, attack, t, ledger.teams[t].team.players.len() as int, pa, att, pd, def),
    ensures
        scanned(ledger, attack, t + 1, 0, pa, att, pd, def),
{
    let n = ledger.teams[t].team.players.len() as int;
    assert forall|s: int, j: int| ledger.occupied(s, j) && comes_before(s, j, t + 1, 0) implies
        comes_before(s, j, t, n) by {}
    assert forall|s: int, j: int| comes_before(s, j, t, n) implies comes_before(s, j, t + 1, 0) by {}
}

proof fn lemma_scanned_all(
    ledger: LedgerView,
    attack: AttackView,
    pa: Option<Slot>,
    att: Seq<Slot>,
    pd: Option<Slot>,
    def: Seq<Slot>,
)
    requires
        ledger.wf(),
        ledger.has_player(attack.attackers.primary),
        ledger.has_player(attack.defenders.primary),
        attack.standing(attack.defenders.primary) == Standing::PrimaryDefender,
        scanned(ledger, attack, ledger.teams.len() as int, 0, pa, att, pd, def),
    ensures
        pa is Some,
        pd is Some,
        ledger.at(pa->0.team as int, pa->0.place as int).name == attack.attackers.primary,
        ledger.at(pd->0.team as int, pd->0.place as int).name == attack.defenders.primary,
        forall|t: int, i: int|
            ledger.occupied(t, i) ==> (slots_hold(att, t, i) <==> attack.standing(
                (#[trigger] ledger.at(t, i)).name,
            ) == Standing::AttackerAssist),
        forall|t: int, i: int|
            ledger.occupied(t, i) ==> (slots_hold(def, t, i) <==> attack.standing(
                (#[trigger] ledger.at(t, i)).name,
            ) == Standing::DefenderAssist),
{
    let n = ledger.teams.len() as int;
    ledger.lemma_located(attack.attackers.primary);
    ledger.lemma_located(attack.defenders.primary);
    let (at, ai) = ledger.locate(attack.attackers.primary);
    let (dt, di) = ledger.locate(attack.defenders.primary);
    assert(comes_before(at, ai, n, 0));
    assert(comes_before(dt, di, n, 0));
    assert(attack.standing(ledger.at(at, ai).name) == Standing::PrimaryAttacker);
    assert(attack.standing(ledger.at(dt, di).name) == Standing::PrimaryDefender);
    assert forall|t: int, i: int| ledger.occupied(t, i) implies (slots_hold(att, t, i)
        <==> attack.standing((#[trigger] ledger.at(t, i)).name) == Standing::AttackerAssist) by {
        assert(comes_before(t, i, n, 0));
        if slots_hold(att, t, i) {
            let k = choose|k: int|
                0 <= k < att.len() && (#[trigger] att[k]).team == t && att[k].place == i;
            assert(attack.standing(ledger.at(att[k].team as int, att[k].place as int).name)
                == Standing::AttackerAssist);
        }
    }
    assert forall|t: int, i: int| ledger.occupied(t, i) implies (slots_hold(def, t, i)
        <==> attack.standing((#[trigger] ledger.at(t, i)).name) == Standing::DefenderAssist) by {
        assert(comes_before(t, i, n, 0));
        if slots_hold(def, t, i) {
            let k = choose|k: int|
                0 <= k < def.len() && (#[trigger] def[k]).team == t && def[k].place == i;
            assert(attack.standing(ledger.at(def[k].team as int, def[k].place as int).name)
                == Standing::DefenderAssist);
        }
    }
}

impl Attack {
    /// Whether the attack can be resolved against `state`.
    pub fn can_resolve(&self, state: &TeamsByName) -> (can: bool)
        requires
            state.wf(),
        ensures
            can == self@.resolvable(state@),
    {
        if state.find_slot(&self.attackers.primary).is_none() {
            return false;
        }
        if state.find_slot(&self.defenders.primary).is_none() {
            return false;
        }
        match self.standing_of(&self.defenders.primary) {
            Standing::PrimaryDefender => {},
            _ => {
                return false;
            },
        }
        let (attackers, defenders) = self.combatants_by_ref(state);
        let attack_strength = attackers.wide_strength(state);
        let defense_strength = defenders.wide_strength(state);
        let least = i16::MIN as i128;
        let most = i16::MAX as i128;
        if attack_strength < least || attack_strength > most || defense_strength < least
            || defense_strength > most {
            return false;
        }
        let attack_succeeds = attack_strength + self.attack_bonus() as i128 > defense_strength;
        let (winning_team, honor_won) = if attack_succeeds {
            (&self.attackers.for_team, defense_strength)
        } else {
            (&self.defenders.for_team, attack_strength)
        };
        match state.team_position(winning_team) {
            Some(k) => {
                proof {
                    state@.lemma_team_index(k as int);
                }
                let honor = state.team_at(k).honor() as i128 + honor_won;
                least <= honor && honor <= most
            },
            None => false,
        }
    }
}

/// The model of a [`DeclaredAttack`].
pub struct DeclaredView {
    pub attacker: Seq<char>,
    pub attacker_assists: Seq<Seq<char>>,
    pub att_team: Seq<char>,
    pub defender: Seq<char>,
    pub defender_assists: Seq<Seq<char>>,
    pub def_team: Seq<char>,
    pub def_power: PowerType,
    pub state: LedgerView,
}

impl DeclaredView {
    /// The attack of `attacker` on `defender`, who defends with `def_power`,
    /// declared on `state`: nobody assists yet.
    pub open spec fn declared(
        state: LedgerView,
        attacker: Seq<char>,
        defender: Seq<char>,
        def_power: PowerType,
    ) -> DeclaredView {
        DeclaredView {
            attacker,
            attacker_assists: Seq::empty(),
            att_team: state.team_of(attacker),
            defender,
            defender_assists: Seq::empty(),
            def_team: state.team_of(defender),
            def_power,
            state,
        }
    }

    /// Whether the player called `name` can fight in the colour of the defence.
    pub open spec fn can_join(self, name: Seq<char>) -> bool {
        self.state.has_player(name) && self.state.player(name).power.has(self.def_power)
    }

    /// What the attack as built so far is sure of: the state is well formed,
    /// both primaries are players of it and go with their teams, the attacker
    /// is alive, the defender and all who assist hold the colour of the
    /// defence, nobody assists one side twice, and nobody who assists the
    /// attack defends.
    pub open spec fn wf(self) -> bool {
        &&& self.state.wf()
        &&& self.state.has_player(self.attacker)
        &&& !self.state.player(self.attacker).power.is_dead()
        &&& self.att_team == self.state.team_of(self.attacker)
        &&& self.can_join(self.defender)
        &&& self.def_team == self.state.team_of(self.defender)
        &&& self.defender_assists.no_duplicates()
        &&& self.attacker_assists.no_duplicates()
        &&& forall|k: int|
            0 <= k < self.defender_assists.len() ==> self.can_join(
                #[trigger] self.defender_assists[k],
            )
        &&& forall|k: int|
            0 <= k < self.attacker_assists.len() ==> {
                &&& self.can_join(#[trigger] self.attacker_assists[k])
                &&& self.attacker_assists[k] != self.defender
                &&& !self.defender_assists.contains(self.attacker_assists[k])
            }
    }

    /// Why the player called `name` cannot assist the defence, if so.
    pub open spec fn defender_refused(self, name: Seq<char>) -> Option<InvalidAttackErr> {
        if !self.state.has_player(name) {
            Some(InvalidAttackErr::CombatantNotFound)
        } else if !self.state.player(name).power.has(self.def_power) {
            Some(InvalidAttackErr::CombatantMissingPowerType)
        } else if self.defender_assists.contains(name) {
            Some(InvalidAttackErr::DuplicateCombatant)
        } else {
            None
        }
    }

    /// Why the player called `name` cannot assist the attack, if so. An assist
    /// of the attack, too, must hold the colour of the defence.
    pub open spec fn attacker_refused(self, name: Seq<char>) -> Option<InvalidAttackErr> {
        if !self.state.has_player(name) {
            Some(InvalidAttackErr::CombatantNotFound)
        } else if !self.state.player(name).power.has(self.def_power) {
            Some(InvalidAttackErr::CombatantMissingPowerType)
        } else if name == self.defender || self.defender_assists.contains(name) {
            Some(InvalidAttackErr::AttackerAlreadyDefending)
        } else if self.attacker_assists.contains(name) {
            Some(InvalidAttackErr::DuplicateCombatant)
        } else {
            None
        }
    }

    /// The attack with one more assist of the defence.
    pub open spec fn with_defender(self, name: Seq<char>) -> DeclaredView {
        DeclaredView { defender_assists: self.defender_assists.push(name), ..self }
    }

    /// The attack with one more assist of the attack.
    pub open spec fn with_attacker(self, name: Seq<char>) -> DeclaredView {
        DeclaredView { attacker_assists: self.attacker_assists.push(name), ..self }
    }

    /// The attack in full, once the attackers fight with `att_power`.
    pub open spec fn finalize(self, att_power: PowerType) -> AttackView {
        AttackView {
            attackers: SideView {
                primary: self.attacker,
                assists: self.attacker_assists,
                power_type: att_power,
                for_team: self.att_team,
            },
            defenders: SideView {
                primary: self.defender,
                assists: self.defender_assists,
                power_type: self.def_power,
                for_team: self.def_team,
            },
        }
    }
}

/// Why `attacker` cannot declare an attack on `defender`, who would defend with
/// `def_power`, if so.
pub open spec fn declaration_refused(
    state: LedgerView,
    attacker: Seq<char>,
    defender: Seq<char>,
    def_power: PowerType,
) -> Option<InvalidAttackErr> {
    if !state.has_player(attacker) || !state.has_player(defender) {
        Some(InvalidAttackErr::CombatantNotFound)
    } else if !state.player(defender).power.has(def_power) {
        Some(InvalidAttackErr::CombatantMissingPowerType)
    } else if state.player(attacker).power.is_dead() {
        Some(InvalidAttackErr::AttackerIsDead)
    } else {
        None
    }
}

/// An attack that is being declared: the two primaries, the assists named so
/// far, and the state of the teams that every name is checked against.
pub struct DeclaredAttack<'a> {
    initial_attacker: PName,
    attacker_assists: Vec<PName>,
    att_team: TName,
    targeted_defender: PName,
    defender_assists: Vec<PName>,
    def_team: TName,
    def_power: PowerType,
    state: &'a TeamsByName,
}

impl<'a> View for DeclaredAttack<'a> {
    type V = DeclaredView;

    closed spec fn view(&self) -> DeclaredView {
        DeclaredView {
            attacker: self.initial_attacker@,
            attacker_assists: pname_views(self.attacker_assists@),
            att_team: self.att_team@,
            defender: self.targeted_defender@,
            defender_assists: pname_views(self.defender_assists@),
            def_team: self.def_team@,
            def_power: self.def_power,
            state: self.state@,
        }
    }
}

impl<'a> DeclaredAttack<'a> {
    /// Declares the attack of `attacker` on `defender`, who defends with
    /// `def_power`. Both must be players of `state`, the defender must hold
    /// `def_power`, and the attacker must hold some colour still.
    pub fn declare<'g>(
        state: &'g TeamsByName,
        attacker: &str,
        defender: &str,
        def_power: PowerType,
    ) -> (declared: Result<AddDefender<'g>, InvalidAttackErr>)
        requires
            state.wf(),
        ensures
            match declared {
                Ok(stage) => {
                    &&& declaration_refused(state@, attacker@, defender@, def_power) is None
                    &&& stage@ == DeclaredView::declared(state@, attacker@, defender@, def_power)
                    &&& stage.wf()
                },
                Err(e) => declaration_refused(state@, attacker@, defender@, def_power) == Some(e),
            },
    {
        let (attacker_name, att_team) = match state.player_by_name(attacker) {
            Some(found) => found,
            None => {
                return Err(InvalidAttackErr::CombatantNotFound);
            },
        };
        let (defender_name, def_team) = match state.player_by_name(defender) {
            Some(found) => found,
            None => {
                return Err(InvalidAttackErr::CombatantNotFound);
            },
        };
        if !state.player_data(&defender_name).has_power(def_power) {
            return Err(InvalidAttackErr::CombatantMissingPowerType);
        }
        if state.player_data(&attacker_name).is_dead() {
            return Err(InvalidAttackErr::AttackerIsDead);
        }
        let stage = AddDefender {
            attack: DeclaredAttack {
                initial_attacker: attacker_name,
                attacker_assists: Vec::new(),
                att_team,
                targeted_defender: defender_name,
                defender_assists: Vec::new(),
                def_team,
                def_power,
                state,
            },
        };
        proof {
            assert(stage@.attacker_assists =~= Seq::empty());
            assert(stage@.defender_assists =~= Seq::empty());
        }
        Ok(stage)
    }

    /// The attack in full, the attackers fighting with `att_power`.
    pub fn finalize(self, att_power: PowerType) -> (attack: Attack)
        ensures
            attack@ == self@.finalize(att_power),
    {
        Attack {
            attackers: NamedCombatants {
                primary: self.initial_attacker,
                assists: self.attacker_assists,
                power_type: att_power,
                for_team: self.att_team,
            },
            defenders: NamedCombatants {
                primary: self.targeted_defender,
                assists: self.defender_assists,
                power_type: self.def_power,
                for_team: self.def_team,
            },
        }
    }

    /// The one who attacks.
    pub fn attacker(&self) -> (name: &PName)
        ensures
            name@ == self@.attacker,
    {
        &self.initial_attacker
    }

    /// Those who assist the attack so far.
    pub fn attacker_assists(&self) -> (names: &Vec<PName>)
        ensures
            pname_views(names@) == self@.attacker_assists,
    {
        &self.attacker_assists
    }

    /// The team that the attackers fight for.
    pub fn attacker_team(&self) -> (team: &TName)
        ensures
            team@ == self@.att_team,
    {
        &self.att_team
    }

    /// The one attacked.
    pub fn defender(&self) -> (name: &PName)
        ensures
            name@ == self@.defender,
    {
        &self.targeted_defender
    }

    /// Those who assist the defence so far.
    pub fn defender_assists(&self) -> (names: &Vec<PName>)
        ensures
            pname_views(names@) == self@.defender_assists,
    {
        &self.defender_assists
    }

    /// The team that the defenders fight for.
    pub fn defender_team(&self) -> (team: &TName)
        ensures
            team@ == self@.def_team,
    {
        &self.def_team
    }

    /// The state of the teams that the attack is declared on.
    pub fn state(&self) -> (state: &'a TeamsByName)
        ensures
            state@ == self@.state,
    {
        self.state
    }

    /// The colour in which the defenders fight.
    pub fn defense_power(&self) -> (ptype: PowerType)
        ensures
            ptype == self@.def_power,
    {
        self.def_power
    }
}

/// The stage of a declaration at which players join the defence.
pub struct AddDefender<'a> {
    pub attack: DeclaredAttack<'a>,
}

impl<'a> View for AddDefender<'a> {
    type V = DeclaredView;

    open spec fn view(&self) -> DeclaredView {
        self.attack@
    }
}

impl<'a> AddDefender<'a> {
    /// The attack so far is well formed, and nobody assists the attack yet.
    pub open spec fn wf(&self) -> bool {
        self@.wf() && self@.attacker_assists.len() == 0
    }

    /// Joins the player called `name` to the defence. The player must be a
    /// player of the state, hold the colour of the defence, and not assist the
    /// defence already.
    pub fn add(&mut self, name: &str) -> (added: Result<(), InvalidAttackErr>)
        requires
            old(self).wf(),
        ensures
            final(self).wf(),
            match added {
                Ok(()) => old(self)@.defender_refused(name@) is None && final(self)@
                    == old(self)@.with_defender(name@),
                Err(e) => old(self)@.defender_refused(name@) == Some(e) && final(self)@
                    == old(self)@,
            },
    {
        let state = self.attack.state;
        if let Some((pname, _)) = state.player_by_name(name) {
            if !state.player_data(&pname).has_power(self.attack.def_power) {
                return Err(InvalidAttackErr::CombatantMissingPowerType);
            }
            if contains_name(&self.attack.defender_assists, &pname) {
                return Err(InvalidAttackErr::DuplicateCombatant);
            }
            self.attack.defender_assists.push(pname);
            proof {
                assert(self@.defender_assists =~= old(self)@.defender_assists.push(name@));
                lemma_with_defender_wf(old(self)@, name@);
            }
            Ok(())
        } else {
            Err(InvalidAttackErr::CombatantNotFound)
        }
    }

    /// Joins the player called `name` to the defence, where nothing stands
    /// against it.
    pub fn add_or_panic(self, name: &str) -> (stage: Self)
        requires
            self.wf(),
            self@.defender_refused(name@) is None,
        ensures
            stage.wf(),
            stage@ == self@.with_defender(name@),
    {
        let mut stage = self;
        let added = stage.add(name);
        assert(added is Ok);
        stage
    }

    /// Closes the defence. The colour of the attack is drawn now, with equal
    /// chance from the colours that the attacker still holds.
    pub fn finalize_defense(self) -> (stage: AddAttacker<'a>)
        requires
            self.wf(),
        ensures
            stage.wf(),
            stage@.attack == self@,
            self@.state.player(self@.attacker).power.has(stage@.att_power),
    {
        let state = self.attack.state;
        let colours = state.player_data(&self.attack.initial_attacker).powers_remaining();
        let att_power = match choose_one(&colours) {
            Some(colour) => *colour,
            None => {
                proof {
                    let power = self@.state.player(self@.attacker).power;
                    assert(power.has(PowerType::Red) || power.has(PowerType::Blue) || power.has(
                        PowerType::Green,
                    ));
                    assert(power.remaining().len() > 0);
                }
                unreached()
            },
        };
        proof {
            let power = self@.state.player(self@.attacker).power;
            let k = choose|k: int| 0 <= k < colours@.len() && colours@[k] == att_power;
            assert(power.remaining()[k] == att_power);
        }
        self.finalize_defense_with(att_power)
    }

    /// Closes the defence, the attackers fighting with `att_power`, which the
    /// attacker holds.
    pub fn finalize_defense_with(self, att_power: PowerType) -> (stage: AddAttacker<'a>)
        requires
            self.wf(),
            self@.state.player(self@.attacker).power.has(att_power),
        ensures
            stage.wf(),
            stage@ == (AttackerStageView { attack: self@, att_power }),
    {
        AddAttacker { attack: self.attack, att_power }
    }
}

/// The model of an [`AddAttacker`].
pub struct AttackerStageView {
    pub attack: DeclaredView,
    pub att_power: PowerType,
}

/// The stage of a declaration at which players join the attack. The colour of
/// the attack is known.
pub struct AddAttacker<'a> {
    pub attack: DeclaredAttack<'a>,
    att_power: PowerType,
}

impl<'a> View for AddAttacker<'a> {
    type V = AttackerStageView;

    closed spec fn view(&self) -> AttackerStageView {
        AttackerStageView { attack: self.attack@, att_power: self.att_power }
    }
}

impl<'a> AddAttacker<'a> {
    /// The attack so far is well formed, and the attacker holds the colour of
    /// the attack.
    pub open spec fn wf(&self) -> bool {
        self@.attack.wf() && self@.attack.state.player(self@.attack.attacker).power.has(
            self@.att_power,
        )
    }

    /// The colour in which the attackers will fight.
    pub fn attack_power(&self) -> (ptype: PowerType)
        ensures
            ptype == self@.att_power,
    {
        self.att_power
    }

    /// Joins the player called `name` to the attack. The player must be a
    /// player of the state, hold the colour of the defence, not defend, and
    /// not assist the attack already.
    pub fn add(&mut self, name: &str) -> (added: Result<(), InvalidAttackErr>)
        requires
            old(self).wf(),
        ensures
            final(self).wf(),
            final(self)@.att_power == old(self)@.att_power,
            match added {
                Ok(()) => old(self)@.attack.attacker_refused(name@) is None && final(self)@.attack
                    == old(self)@.attack.with_attacker(name@),
                Err(e) => {
                    &&& old(self)@.attack.attacker_refused(name@) == Some(e)
                    &&& final(self)@.attack == old(self)@.attack
                },
            },
    {
        let state = self.attack.state;
        if let Some((pname, _)) = state.player_by_name(name) {
            if !state.player_data(&pname).has_power(self.attack.def_power) {
                return Err(InvalidAttackErr::CombatantMissingPowerType);
            }
            if pname == self.attack.targeted_defender || contains_name(
                &self.attack.defender_assists,
                &pname,
            ) {
                return Err(InvalidAttackErr::AttackerAlreadyDefending);
            }
            if contains_name(&self.attack.attacker_assists, &pname) {
                return Err(InvalidAttackErr::DuplicateCombatant);
            }
            self.attack.attacker_assists.push(pname);
            proof {
                assert(self@.attack.attacker_assists =~= old(self)@.attack.attacker_assists.push(
                    name@,
                ));
                lemma_with_attacker_wf(old(self)@.attack, name@);
            }
            Ok(())
        } else {
            Err(InvalidAttackErr::CombatantNotFound)
        }
    }

    /// Joins the player called `name` to the attack, where nothing stands
    /// against it.
    pub fn add_or_panic(self, name: &str) -> (stage: Self)
        requires
            self.wf(),
            self@.attack.attacker_refused(name@) is None,
        ensures
            stage.wf(),
            stage@.att_power == self@.att_power,
            stage@.attack == self@.attack.with_attacker(name@),
    {
        let mut stage = self;
        let added = stage.add(name);
        assert(added is Ok);
        stage
    }

    /// Closes the attack: the declaration is complete.
    pub fn finalize_offense(self) -> (attack: Attack)
        ensures
            attack@ == self@.attack.finalize(self@.att_power),
    {
        self.attack.finalize(self.att_power)
    }
}

/// One more assist of the defence, whom nothing stands against, leaves an
/// attack without assists of the attack well formed.
pub proof fn lemma_with_defender_wf(attack: DeclaredView, name: Seq<char>)
    requires
        attack.wf(),
        attack.attacker_assists.len() == 0,
        attack.defender_refused(name) is None,
    ensures
        attack.with_defender(name).wf(),
{
    let after = attack.with_defender(name);
    assert forall|i: int, j: int|
        0 <= i < after.defender_assists.len() && 0 <= j < after.defender_assists.len() && i
            != j implies after.defender_assists[i] != after.defender_assists[j] by {
        if i < attack.defender_assists.len() && j < attack.defender_assists.len() {
            assert(attack.defender_assists[i] != attack.defender_assists[j]);
        } else if i < attack.defender_assists.len() {
            assert(attack.defender_assists[i] == after.defender_assists[i]);
        } else {
            assert(attack.defender_assists[j] == after.defender_assists[j]);
        }
    }
    assert forall|k: int| 0 <= k < after.defender_assists.len() implies after.can_join(
        #[trigger] after.defender_assists[k],
    ) by {
        if k < attack.defender_assists.len() {
            assert(attack.can_join(attack.defender_assists[k]));
        }
    }
}

/// One more assist of the attack, whom nothing stands against, leaves an attack
/// well formed.
pub proof fn lemma_with_attacker_wf(attack: DeclaredView, name: Seq<char>)
    requires
        attack.wf(),
        attack.attacker_refused(name) is None,
    ensures
        attack.with_attacker(name).wf(),
{
    let after = attack.with_attacker(name);
    assert forall|i: int, j: int|
        0 <= i < after.attacker_assists.len() && 0 <= j < after.attacker_assists.len() && i
            != j implies after.attacker_assists[i] != after.attacker_assists[j] by {
        if i < attack.attacker_assists.len() && j < attack.attacker_assists.len() {
            assert(attack.attacker_assists[i] != attack.attacker_assists[j]);
        } else if i < attack.attacker_assists.len() {
            assert(attack.attacker_assists[i] == after.attacker_assists[i]);
        } else {
            assert(attack.attacker_assists[j] == after.attacker_assists[j]);
        }
    }
    assert forall|k: int| 0 <= k < after.attacker_assists.len() implies {
        &&& after.can_join(#[trigger] after.attacker_assists[k])
        &&& after.attacker_assists[k] != after.defender
        &&& !after.defender_assists.contains(after.attacker_assists[k])
    } by {
        if k < attack.attacker_assists.len() {
            assert(attack.can_join(attack.attacker_assists[k]));
        }
    }
}

/// An attack cannot be declared in the name of somebody who is no player: with
/// an unknown attacker or an unknown defender, the declaration is refused, the
/// combatant not being found.
pub proof fn lemma_unknown_name_is_not_found(
    state: LedgerView,
    attacker: Seq<char>,
    defender: Seq<char>,
    def_power: PowerType,
)
    requires
        !state.has_player(attacker) || !state.has_player(defender),
    ensures
        declaration_refused(state, attacker, defender, def_power) == Some(
            InvalidAttackErr::CombatantNotFound,
        ),
{
}

/// Nobody assists the defence twice: once a player has joined the defence,
/// joining again is refused as a duplicate.
pub proof fn lemma_same_defender_twice_is_duplicate(attack: DeclaredView, name: Seq<char>)
    requires
        attack.defender_refused(name) is None,
    ensures
        attack.with_defender(name).defender_refused(name) == Some(
            InvalidAttackErr::DuplicateCombatant,
        ),
{
    let after = attack.with_defender(name);
    assert(after.defender_assists[attack.defender_assists.len() as int] == name);
}

/// The one attacked cannot assist the attack: joining the primary defender to
/// the attack is refused, the attacker defending already.
pub proof fn lemma_primary_defender_cannot_attack(attack: DeclaredView)
    requires
        attack.wf(),
    ensures
        attack.attacker_refused(attack.defender) == Some(
            InvalidAttackErr::AttackerAlreadyDefending,
        ),
{
}

} // verus!
