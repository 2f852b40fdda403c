//! Setting up a game: naming the teams and the players, and dealing the players
//! their teams, their holdings and their roles.

use crate::gamestate::active::{dealt, ActiveGame};
use crate::gamestate::name_set::{ascending, lemma_ascending_no_duplicates, NameSet};
use crate::gamestate::players::{dealt_by, name_views, PlayerAttributePool, Role, RoleView};
use crate::gamestate::teams::LedgerView;
use crate::gamestate::power::{Power, PowerRange, PowerView};
use crate::gamestate::with_history::HistoryView;
use crate::random::{choose_one, sample_below};
use vstd::prelude::*;

verus! {

/// Why a name cannot be taken into a game that is being set up.
#[derive(Copy, Clone, Debug, PartialEq, Eq, Structural)]
pub enum GameSetupErr {
    PlayerNameDuplicated,
    TeamNameDuplicated,
    PlayerDoesNotExist,
}

/// Why a game that is being set up cannot start.
#[derive(Copy, Clone, Debug, PartialEq, Eq, Structural)]
pub enum StartGameErr {
    TeamsNotEstablished,
    TooFewPlayers,
}

/// The result of a step that gives nothing back but may fail.
pub type OptErr<E> = Result<(), E>;

/// The model of a [`PlayerAttributeProvider`].
pub struct ProviderView {
    pub powers: Seq<PowerView>,
    pub remaining: int,
    pub roles: Seq<RoleView>,
    pub destined: Seq<Seq<char>>,
    pub without_role: Seq<Seq<char>>,
    pub awaited: Set<Seq<char>>,
}

/// Whether `role` is a role that the player called `name` can have in a game
/// whose destined player is `destined`, if it has one, and in which the players
/// called `exempt` have no role: the destined player is destined, and anyone
/// else who is not exempt may be the prophet of the destined player, or the
/// traitor.
pub open spec fn role_fits(
    exempt: Seq<Seq<char>>,
    destined: Option<Seq<char>>,
    name: Seq<char>,
    role: Option<RoleView>,
) -> bool {
    if exempt.contains(name) {
        role is None
    } else if destined == Some(name) {
        role == Some(RoleView::Destined)
    } else {
        ||| role is None
        ||| role == Some(RoleView::Traitor)
        ||| destined is Some && role == Some(RoleView::Prophet { target: destined->0 })
    }
}

/// Whether every player of `ledger` has a role that fits.
pub open spec fn roles_dealt(
    ledger: LedgerView,
    exempt: Seq<Seq<char>>,
    destined: Option<Seq<char>>,
) -> bool {
    forall|t: int, i: int|
        ledger.occupied(t, i) ==> role_fits(
            exempt,
            destined,
            (#[trigger] ledger.at(t, i)).name,
            ledger.at(t, i).role,
        )
}

/// Whether `destined` can be the destined player of a game of `players`, of
/// whom those called `exempt` have no role: a player who is not exempt, or
/// nobody where every player is exempt.
pub open spec fn destined_fits(
    players: Seq<Seq<char>>,
    exempt: Seq<Seq<char>>,
    destined: Option<Seq<char>>,
) -> bool {
    match destined {
        Some(name) => players.contains(name) && !exempt.contains(name),
        None => forall|i: int| 0 <= i < players.len() ==> exempt.contains(#[trigger] players[i]),
    }
}

/// The roles that are given by chance in a game whose destined player is
/// `destined`, among `undecided` players: a prophet of the destined player
/// first, then the traitor, as far as there are players to take them.
pub open spec fn roles_to_give(destined: Option<Seq<char>>, undecided: int) -> Seq<RoleView> {
    match destined {
        Some(target) => if undecided >= 2 {
            seq![RoleView::Prophet { target }, RoleView::Traitor]
        } else if undecided == 1 {
            seq![RoleView::Prophet { target }]
        } else {
            Seq::empty()
        },
        None => Seq::empty(),
    }
}

impl ProviderView {
    /// The provider of a game of `players`, of whom those called `exempt` have
    /// no role, before anything is handed out: it holds `powers`, and
    /// `destined` is the destined player, if there is one.
    pub open spec fn starting(
        players: Seq<Seq<char>>,
        exempt: Seq<Seq<char>>,
        powers: Seq<PowerView>,
        destined: Option<Seq<char>>,
    ) -> ProviderView {
        let chosen: Seq<Seq<char>> = match destined {
            Some(name) => seq![name],
            None => Seq::empty(),
        };
        let undecided = players.len() - exempt.len() - chosen.len();
        ProviderView {
            powers,
            remaining: undecided,
            roles: roles_to_give(destined, undecided),
            destined: chosen,
            without_role: exempt,
            awaited: players.to_set(),
        }
    }

    /// The destined player, if there is one.
    pub open spec fn destined_name(self) -> Option<Seq<char>> {
        if self.destined.len() > 0 {
            Some(self.destined[0])
        } else {
            None
        }
    }

    /// Whether the role of the player called `name` is left to chance: the
    /// player is neither exempt from roles nor destined.
    pub open spec fn is_open(self, name: Seq<char>) -> bool {
        !self.without_role.contains(name) && !self.destined.contains(name)
    }

    /// The players who are awaited and whose role is left to chance.
    pub open spec fn undecided(self) -> Set<Seq<char>> {
        self.awaited.difference(self.without_role.to_set() + self.destined.to_set())
    }

    /// The provider counts the undecided players rightly, has no more roles
    /// to give than players who could take one, and holds only well-formed
    /// holdings.
    pub open spec fn wf(self) -> bool {
        &&& self.awaited.finite()
        &&& self.remaining == self.undecided().len()
        &&& self.roles.len() <= self.remaining
        &&& self.destined.len() <= 1
        &&& forall|i: int|
            0 <= i < self.roles.len() ==> #[trigger] self.roles[i] == RoleView::Traitor || (
            self.destined.len() == 1 && self.roles[i] == (RoleView::Prophet {
                target: self.destined[0],
            }))
        &&& forall|i: int|
            0 <= i < self.powers.len() ==> (#[trigger] self.powers[i]).wf()
                && self.powers[i].full_within(1, 6)
    }

    /// The role that the player called `name` gets where the draw among the
    /// undecided players is `draw` and the draw among the roles is `pick`: a
    /// player exempt from roles gets none, the destined player is destined,
    /// and anyone else gets the role at `pick` where `draw` falls below the
    /// number of roles that are left.
    pub open spec fn role_for(self, name: Seq<char>, draw: int, pick: int) -> Option<RoleView> {
        if self.without_role.contains(name) {
            None
        } else if self.destined.contains(name) {
            Some(RoleView::Destined)
        } else if draw < self.roles.len() {
            Some(self.roles[pick])
        } else {
            None
        }
    }

    /// The provider after the role of the player called `name` is decided.
    pub open spec fn after_role(self, name: Seq<char>, draw: int, pick: int) -> ProviderView {
        if !self.is_open(name) {
            ProviderView { awaited: self.awaited.remove(name), ..self }
        } else {
            ProviderView {
                awaited: self.awaited.remove(name),
                remaining: self.remaining - 1,
                roles: if draw < self.roles.len() {
                    self.roles.remove(pick)
                } else {
                    self.roles
                },
                ..self
            }
        }
    }

    /// Whether `draw` and `pick` are draws that the decision on the player
    /// called `name` can be made with.
    pub open spec fn draws_fit(self, name: Seq<char>, draw: int, pick: int) -> bool {
        self.is_open(name) ==> {
            &&& 0 <= draw < self.remaining
            &&& draw < self.roles.len() ==> 0 <= pick < self.roles.len()
        }
    }
}

/// Deciding on the role of an awaited player keeps a provider well formed.
pub proof fn lemma_after_role_wf(provider: ProviderView, name: Seq<char>, draw: int, pick: int)
    requires
        provider.wf(),
        provider.awaited.contains(name),
        provider.draws_fit(name, draw, pick),
    ensures
        provider.after_role(name, draw, pick).wf(),
        role_fits(
            provider.without_role,
            provider.destined_name(),
            name,
            provider.role_for(name, draw, pick),
        ),
{
    let after = provider.after_role(name, draw, pick);
    if provider.destined.contains(name) {
        let k = choose|k: int| 0 <= k < provider.destined.len() && provider.destined[k] == name;
        assert(k == 0);
    } else if provider.destined.len() > 0 {
        assert(provider.destined[0] != name);
    }
    let excluded = provider.without_role.to_set() + provider.destined.to_set();
    if provider.is_open(name) {
        assert(provider.undecided().contains(name));
        assert(after.undecided() =~= provider.undecided().remove(name));
    } else {
        assert(excluded.contains(name));
        assert(after.undecided() =~= provider.undecided());
    }
}

/// A provider with undecided players left expects at least one more request.
pub proof fn lemma_open_player_counts(provider: ProviderView, name: Seq<char>)
    requires
        provider.wf(),
        provider.awaited.contains(name),
        provider.is_open(name),
    ensures
        provider.remaining > 0,
{
    assert(provider.undecided().contains(name));
    assert(provider.undecided().finite());
    if provider.undecided().len() == 0 {
        assert(provider.undecided() =~= Set::empty());
    }
}

/// The letters of a name that may be there.
pub open spec fn letters_of(name: Option<String>) -> Option<Seq<char>> {
    match name {
        Some(name) => Some(name@),
        None => None,
    }
}

/// The source of attributes of a game that is set up here: holdings are thrown
/// with a die, one of the players who are open to a role is destined, and a
/// prophet and a traitor are chosen by chance among the others of them.
pub struct PlayerAttributeProvider {
    power_token_sets: Vec<Power>,
    num_role_assignments_remaining: usize,
    roles: Vec<Role>,
    destined: NameSet,
    without_role: NameSet,
    awaited: Ghost<Set<Seq<char>>>,
}

impl View for PlayerAttributeProvider {
    type V = ProviderView;

    closed spec fn view(&self) -> ProviderView {
        ProviderView {
            powers: self.power_token_sets@.map_values(|power: Power| power@),
            remaining: self.num_role_assignments_remaining as int,
            roles: self.roles@.map_values(|role: Role| role@),
            destined: self.destined@,
            without_role: self.without_role@,
            awaited: self.awaited@,
        }
    }
}

impl PlayerAttributeProvider {
    /// The provider is well formed, and its sets of names are in order.
    pub open spec fn wf(&self) -> bool {
        self@.wf() && ascending(self@.destined) && ascending(self@.without_role)
    }

    /// A provider for the players called `player_names`, of whom those called
    /// `without_role` get no role. The holdings are thrown with a die, and one
    /// of the players who are open to a role is destined.
    pub fn new(player_names: &NameSet, without_role: NameSet) -> (provider: Self)
        requires
            player_names.wf(),
            without_role.wf(),
            forall|i: int|
                0 <= i < without_role@.len() ==> player_names@.contains(
                    #[trigger] without_role@[i],
                ),
        ensures
            provider.wf(),
            provider@.powers.len() == player_names@.len(),
            destined_fits(player_names@, without_role@, provider@.destined_name()),
            provider@ == ProviderView::starting(
                player_names@,
                without_role@,
                provider@.powers,
                provider@.destined_name(),
            ),
    {
        let num_players = player_names.len();
        let power_range = PowerRange::die();
        let mut power_token_sets: Vec<Power> = Vec::new();
        let mut made: usize = 0;
        while made < num_players
            invariant
                made <= num_players,
                power_range.wf(),
                power_token_sets@.len() == made,
                power_range.low == 1,
                power_range.high == 6,
                forall|i: int|
                    0 <= i < made ==> (#[trigger] power_token_sets@[i]).wf()
                        && power_token_sets@[i]@.full_within(1, 6),
            decreases num_players - made,
        {
            power_token_sets.push(Power::randomize(power_range));
            made += 1;
        }
        // Those open to a role: one of them is destined.
        let mut candidates: Vec<String> = Vec::new();
        let mut i: usize = 0;
        while i < num_players
            invariant
                i <= num_players,
                num_players == player_names@.len(),
                player_names.wf(),
                without_role.wf(),
                forall|k: int|
                    0 <= k < candidates@.len() ==> player_names@.contains(
                        #[trigger] name_views(candidates@)[k],
                    ) && !without_role@.contains(name_views(candidates@)[k]),
                forall|j: int|
                    0 <= j < i && !without_role@.contains(#[trigger] player_names@[j])
                        ==> name_views(candidates@).contains(player_names@[j]),
            decreases num_players - i,
        {
            let name = player_names.at(i);
            if !without_role.contains(name) {
                let ghost so_far = name_views(candidates@);
                let copy = name.to_owned();
                candidates.push(copy);
                proof {
                    assert(name_views(candidates@) =~= so_far.push(name@));
                    assert(player_names@.contains(player_names@[i as int]));
                    assert forall|j: int|
                        0 <= j < i + 1 && !without_role@.contains(
                            #[trigger] player_names@[j],
                        ) implies name_views(candidates@).contains(player_names@[j]) by {
                        if j < i {
                            let k = choose|k: int|
                                0 <= k < so_far.len() && so_far[k] == player_names@[j];
                            assert(name_views(candidates@)[k] == player_names@[j]);
                        } else {
                            assert(name_views(candidates@)[so_far.len() as int]
                                == player_names@[j]);
                        }
                    }
                }
            }
            i += 1;
        }
        let destined = match choose_one(&candidates) {
            Some(name) => {
                proof {
                    let k = choose|k: int| 0 <= k < candidates@.len() && candidates@[k] == *name;
                    assert(name_views(candidates@)[k] == name@);
                }
                Some(name.clone())
            },
            None => {
                proof {
                    assert forall|j: int| 0 <= j < player_names@.len() implies without_role@.contains(
                        #[trigger] player_names@[j],
                    ) by {
                        if !without_role@.contains(player_names@[j]) {
                            assert(name_views(candidates@).contains(player_names@[j]));
                        }
                    }
                }
                None
            },
        };
        PlayerAttributeProvider::with_draws(player_names, without_role, power_token_sets, destined)
    }

    /// A provider for the players called `player_names`, of whom those called
    /// `without_role` get no role, in which the holdings and the destined
    /// player are given: it hands out `holdings` from the last to the first,
    /// and `destined` is the destined player. The prophet and the traitor are
    /// left to chance among the other players who are open to a role, as far
    /// as there are any.
    pub fn with_draws(
        player_names: &NameSet,
        without_role: NameSet,
        holdings: Vec<Power>,
        destined: Option<String>,
    ) -> (provider: Self)
        requires
            player_names.wf(),
            without_role.wf(),
            forall|i: int|
                0 <= i < without_role@.len() ==> player_names@.contains(
                    #[trigger] without_role@[i],
                ),
            holdings@.len() == player_names@.len(),
            forall|i: int|
                0 <= i < holdings@.len() ==> (#[trigger] holdings@[i]).wf()
                    && holdings@[i]@.full_within(1, 6),
            destined_fits(player_names@, without_role@, letters_of(destined)),
        ensures
            provider.wf(),
            provider@ == ProviderView::starting(
                player_names@,
                without_role@,
                holdings@.map_values(|power: Power| power@),
                letters_of(destined),
            ),
    {
        let ghost names = player_names@;
        let ghost exempt = without_role@;
        let ghost target = letters_of(destined);
        proof {
            lemma_open_names(names, exempt);
        }
        let open = player_names.len() - without_role.len();
        let mut chosen = NameSet::default();
        let mut roles: Vec<Role> = Vec::new();
        let undecided = match destined {
            Some(name) => {
                proof {
                    lemma_undecided_count(names, exempt, name@);
                }
                let undecided = open - 1;
                chosen.insert(name.clone());
                assert(chosen@ =~= seq![name@]);
                if undecided >= 1 {
                    roles.push(Role::Prophet { target: name });
                }
                if undecided >= 2 {
                    roles.push(Role::Traitor);
                }
                undecided
            },
            None => {
                proof {
                    lemma_all_exempt(names, exempt);
                }
                open
            },
        };
        let provider = PlayerAttributeProvider {
            power_token_sets: holdings,
            num_role_assignments_remaining: undecided,
            roles,
            destined: chosen,
            without_role,
            awaited: Ghost(names.to_set()),
        };
        proof {
            let view = provider@;
            let start = ProviderView::starting(
                names,
                exempt,
                holdings@.map_values(|power: Power| power@),
                target,
            );
            assert(view.roles =~= start.roles);
            assert(view.destined =~= start.destined);
            assert(view == start);
            vstd::seq_lib::seq_to_set_is_finite(names);
            match target {
                Some(name) => {
                    assert(view.destined.to_set() =~= set![name]) by {
                        assert forall|other: Seq<char>|
                            view.destined.to_set().contains(other) <==> other == name by {
                            if other == name {
                                assert(view.destined[0] == other);
                            }
                        }
                    }
                    assert(view.undecided() =~= names.to_set().difference(exempt.to_set()).remove(
                        name,
                    ));
                },
                None => {
                    assert(view.destined.to_set() =~= Set::<Seq<char>>::empty());
                    assert(view.undecided() =~= names.to_set().difference(exempt.to_set()));
                },
            }
            assert forall|i: int| 0 <= i < view.powers.len() implies (#[trigger] view.powers[i]).wf()
                && view.powers[i].full_within(1, 6) by {
                assert(holdings@[i].wf());
            }
        }
        provider
    }

    /// Whether the role of the player called `name` is left to chance.
    pub fn is_open(&self, name: &str) -> (open: bool)
        requires
            self.wf(),
        ensures
            open == self@.is_open(name@),
    {
        !self.without_role.contains(name) && !self.destined.contains(name)
    }

    /// Decides on the role of the player called `name`, where the draw among
    /// the undecided players is `draw` and the draw among the roles is `pick`.
    pub fn next_role_given(&mut self, name: &str, draw: usize, pick: usize) -> (role: Option<Role>)
        requires
            old(self).wf(),
            old(self)@.awaited.contains(name@),
            old(self)@.draws_fit(name@, draw as int, pick as int),
        ensures
            final(self).wf(),
            final(self)@ == old(self)@.after_role(name@, draw as int, pick as int),
            crate::gamestate::players::role_view(role) == old(self)@.role_for(
                name@,
                draw as int,
                pick as int,
            ),
    {
        proof {
            lemma_after_role_wf(self@, name@, draw as int, pick as int);
        }
        if self.without_role.contains(name) {
            self.awaited = Ghost(self.awaited@.remove(name@));
            return None;
        }
        if self.destined.contains(name) {
            self.awaited = Ghost(self.awaited@.remove(name@));
            return Some(Role::Destined);
        }
        self.awaited = Ghost(self.awaited@.remove(name@));
        self.num_role_assignments_remaining -= 1;
        if draw < self.roles.len() {
            let role = self.roles.remove(pick);
            assert(self@.roles =~= old(self)@.roles.remove(pick as int));
            Some(role)
        } else {
            None
        }
    }
}

impl PlayerAttributePool for PlayerAttributeProvider {
    open spec fn pool_wf(&self) -> bool {
        self.wf()
    }

    open spec fn powers_left(&self) -> nat {
        self@.powers.len()
    }

    open spec fn awaiting(&self) -> Set<Seq<char>> {
        self@.awaited
    }

    open spec fn holdings_offered(&self) -> Set<PowerView> {
        Set::new(|power: PowerView| power.full_within(1, 6))
    }

    open spec fn roles_offered(&self) -> Set<(Seq<char>, Option<RoleView>)> {
        Set::new(
            |given: (Seq<char>, Option<RoleView>)|
                role_fits(self@.without_role, self@.destined_name(), given.0, given.1),
        )
    }

    fn next_power(&mut self) -> (power: Power) {
        let ghost before = self@;
        let popped = self.power_token_sets.pop();
        proof {
            assert(self@.powers =~= before.powers.drop_last());
            assert(before.powers[before.powers.len() - 1].wf());
        }
        match popped {
            Some(power) => power,
            None => unreached(),
        }
    }

    // A role is given with a chance of the roles left by the players left,
    // so that every role is given by the time the last player is asked for.
    fn next_role(&mut self, name: &str) -> (role: Option<Role>) {
        if !self.is_open(name) {
            return self.next_role_given(name, 0, 0);
        }
        proof {
            lemma_open_player_counts(self@, name@);
        }
        let draw = sample_below(self.num_role_assignments_remaining);
        let pick = if draw < self.roles.len() {
            sample_below(self.roles.len())
        } else {
            0
        };
        self.next_role_given(name, draw, pick)
    }

    fn is_empty(&self) -> (empty: bool)
        ensures
            empty == (self@.powers.len() == 0 && self@.remaining == 0 && self@.roles.len() == 0),
    {
        proof {
            if self.awaiting() =~= Set::empty() {
                assert(self@.undecided() =~= Set::empty());
            }
        }
        self.power_token_sets.is_empty() && self.num_role_assignments_remaining == 0
            && self.roles.is_empty()
    }
}

/// The names that are open to a role are as many as the names that are not
/// exempt.
proof fn lemma_open_names(names: Seq<Seq<char>>, exempt: Seq<Seq<char>>)
    requires
        ascending(names),
        ascending(exempt),
        forall|i: int| 0 <= i < exempt.len() ==> names.contains(#[trigger] exempt[i]),
    ensures
        names.to_set().difference(exempt.to_set()).len() == names.len() - exempt.len(),
        names.to_set().difference(exempt.to_set()).finite(),
{
    lemma_ascending_no_duplicates(names);
    lemma_ascending_no_duplicates(exempt);
    names.unique_seq_to_set();
    exempt.unique_seq_to_set();
    vstd::seq_lib::seq_to_set_is_finite(names);
    vstd::seq_lib::seq_to_set_is_finite(exempt);
    vstd::set_lib::lemma_set_difference_len(names.to_set(), exempt.to_set());
    assert(names.to_set().intersect(exempt.to_set()) =~= exempt.to_set()) by {
        assert forall|name: Seq<char>| exempt.to_set().contains(name) implies names.to_set().contains(
            name,
        ) by {
            let i = choose|i: int| 0 <= i < exempt.len() && exempt[i] == name;
            assert(names.contains(exempt[i]));
        }
    }
}

/// Where every name is exempt, as many names are exempt as there are names.
proof fn lemma_all_exempt(names: Seq<Seq<char>>, exempt: Seq<Seq<char>>)
    requires
        ascending(names),
        ascending(exempt),
        forall|i: int| 0 <= i < exempt.len() ==> names.contains(#[trigger] exempt[i]),
        forall|i: int| 0 <= i < names.len() ==> exempt.contains(#[trigger] names[i]),
    ensures
        names.len() == exempt.len(),
{
    lemma_open_names(names, exempt);
    let open = names.to_set().difference(exempt.to_set());
    assert(open =~= Set::<Seq<char>>::empty()) by {
        assert forall|name: Seq<char>| !open.contains(name) by {
            if names.contains(name) {
                let i = choose|i: int| 0 <= i < names.len() && names[i] == name;
                assert(exempt.contains(names[i]));
            }
        }
    }
}

/// With one of the open players destined, one fewer is undecided.
proof fn lemma_undecided_count(names: Seq<Seq<char>>, exempt: Seq<Seq<char>>, chosen: Seq<char>)
    requires
        ascending(names),
        ascending(exempt),
        forall|i: int| 0 <= i < exempt.len() ==> names.contains(#[trigger] exempt[i]),
        names.contains(chosen),
        !exempt.contains(chosen),
    ensures
        names.to_set().finite(),
        names.to_set().difference(exempt.to_set()).remove(chosen).len() == names.len()
            - exempt.len() - 1,
        names.to_set().difference(exempt.to_set() + set![chosen]) =~= names.to_set().difference(
            exempt.to_set(),
        ).remove(chosen),
{
    lemma_open_names(names, exempt);
    vstd::seq_lib::seq_to_set_is_finite(names);
    assert(names.to_set().difference(exempt.to_set()).contains(chosen));
}

/// The model of a [`Setup`].
pub struct SetupView {
    pub teams: Seq<Seq<char>>,
    pub players: Seq<Seq<char>>,
    pub without_role: Seq<Seq<char>>,
}

/// A game that is being set up.
#[derive(Debug)]
pub struct Setup {
    team_names: NameSet,
    player_names: NameSet,
    without_role: NameSet,
}

impl View for Setup {
    type V = SetupView;

    closed spec fn view(&self) -> SetupView {
        SetupView {
            teams: self.team_names@,
            players: self.player_names@,
            without_role: self.without_role@,
        }
    }
}

impl Default for Setup {
    fn default() -> (setup: Setup)
        ensures
            setup.wf(),
            setup@.teams.len() == 0,
            setup@.players.len() == 0,
            setup@.without_role.len() == 0,
    {
        Setup {
            team_names: NameSet::default(),
            player_names: NameSet::default(),
            without_role: NameSet::default(),
        }
    }
}

impl Setup {
    /// The names of each kind stand in ascending order, and whoever gets no
    /// role is a player.
    pub closed spec fn wf(&self) -> bool {
        &&& self.team_names.wf()
        &&& self.player_names.wf()
        &&& self.without_role.wf()
        &&& forall|i: int|
            0 <= i < self.without_role@.len() ==> self.player_names@.contains(
                #[trigger] self.without_role@[i],
            )
    }

    /// What a well-formed setup is sure of: names of each kind are in ascending
    /// order, and whoever gets no role is a player.
    pub proof fn lemma_wf(&self)
        requires
            self.wf(),
        ensures
            ascending(self@.teams),
            ascending(self@.players),
            ascending(self@.without_role),
            forall|i: int|
                0 <= i < self@.without_role.len() ==> self@.players.contains(
                    #[trigger] self@.without_role[i],
                ),
    {
    }

    /// A game without teams and players.
    pub fn new_game() -> (setup: Setup)
        ensures
            setup.wf(),
            setup@.teams.len() == 0,
            setup@.players.len() == 0,
            setup@.without_role.len() == 0,
    {
        Setup::default()
    }

    /// Starts the game: the players are dealt to the teams, which stand in the
    /// ascending order of their names. There must be two teams at least, and
    /// three players at least for every team.
    pub fn finalize(self) -> (started: Result<ActiveGame, StartGameErr>)
        requires
            self.wf(),
        ensures
            started is Ok <==> self@.teams.len() >= 2 && self@.players.len() >= 3
                * self@.teams.len(),
            match started {
                Ok(game) => {
                    &&& self@.teams.len() >= 2
                    &&& self@.players.len() >= 3 * self@.teams.len()
                    &&& game.wf()
                    &&& game@ == HistoryView::starting_with(game@.initial)
                    &&& exists|order: Seq<Seq<char>>|
                        {
                            &&& order.to_multiset() == self@.players.to_multiset()
                            &&& #[trigger] dealt(game@.initial, order, self@.teams)
                        }
                    &&& forall|t: int, i: int|
                        game@.initial.occupied(t, i) ==> (#[trigger] game@.initial.at(
                            t,
                            i,
                        )).power.full_within(1, 6)
                    &&& exists|destined: Option<Seq<char>>|
                        {
                            &&& destined_fits(self@.players, self@.without_role, destined)
                            &&& #[trigger] roles_dealt(
                                game@.initial,
                                self@.without_role,
                                destined,
                            )
                        }
                },
                Err(StartGameErr::TeamsNotEstablished) => self@.teams.len() < 2,
                Err(StartGameErr::TooFewPlayers) => self@.teams.len() >= 2 && self@.players.len()
                    < 3 * self@.teams.len(),
            },
    {
        if self.team_names.len() < 2 {
            return Err(StartGameErr::TeamsNotEstablished);
        }
        let num_players = self.player_names.len();
        if !covers(num_players, self.team_names.len()) {
            return Err(StartGameErr::TooFewPlayers);
        }
        let players = self.player_names.to_vec();
        let teams = self.team_names.to_vec();
        proof {
            lemma_ascending_no_duplicates(self@.players);
            lemma_ascending_no_duplicates(self@.teams);
        }
        let attributes_provider = PlayerAttributeProvider::new(
            &self.player_names,
            self.without_role,
        );
        let ghost destined = attributes_provider@.destined_name();
        let ghost offered = attributes_provider;
        let game = ActiveGame::new(players, teams, attributes_provider);
        proof {
            assert forall|t: int, i: int| game@.initial.occupied(t, i) implies (
            #[trigger] game@.initial.at(t, i)).power.full_within(1, 6) && role_fits(
                self@.without_role,
                destined,
                game@.initial.at(t, i).name,
                game@.initial.at(t, i).role,
            ) by {
                let player = game@.initial.at(t, i);
                assert(dealt_by(&offered, player));
                assert(offered.holdings_offered().contains(player.power));
                assert(offered.roles_offered().contains((player.name, player.role)));
            }
            assert(roles_dealt(game@.initial, self@.without_role, destined));
        }
        Ok(game)
    }

    /// Adds the team called `name`, where nothing stands against it.
    pub fn add_team_or_panic(self, name: &str) -> (setup: Setup)
        requires
            self.wf(),
            !self@.teams.contains(name@),
        ensures
            setup.wf(),
            setup@.players == self@.players,
            setup@.without_role == self@.without_role,
            forall|other: Seq<char>|
                setup@.teams.contains(other) <==> (self@.teams.contains(other) || other == name@),
            setup@.teams.len() == self@.teams.len() + 1,
    {
        let mut setup = self;
        let added = setup.add_team(name);
        assert(added is Ok);
        setup
    }

    /// Adds the player called `name`, where nothing stands against it.
    pub fn add_player_or_panic(self, name: &str) -> (setup: Setup)
        requires
            self.wf(),
            !self@.players.contains(name@),
        ensures
            setup.wf(),
            setup@.teams == self@.teams,
            setup@.without_role == self@.without_role,
            forall|other: Seq<char>|
                setup@.players.contains(other) <==> (self@.players.contains(other) || other
                    == name@),
            setup@.players.len() == self@.players.len() + 1,
    {
        let mut setup = self;
        let added = setup.add_player(name);
        assert(added is Ok);
        setup
    }

    /// Exempts the player called `name` from roles, where the player exists.
    pub fn player_without_role_or_panic(self, name: &str) -> (setup: Setup)
        requires
            self.wf(),
            self@.players.contains(name@),
        ensures
            setup.wf(),
            setup@.teams == self@.teams,
            setup@.players == self@.players,
            forall|other: Seq<char>|
                setup@.without_role.contains(other) <==> (self@.without_role.contains(other)
                    || other == name@),
    {
        let mut setup = self;
        let exempted = setup.player_without_role(name);
        assert(exempted is Ok);
        setup
    }

    /// Adds the team called `name`. No two teams can have the same name.
    pub fn add_team(&mut self, name: &str) -> (added: OptErr<GameSetupErr>)
        requires
            old(self).wf(),
        ensures
            final(self).wf(),
            final(self)@.players == old(self)@.players,
            final(self)@.without_role == old(self)@.without_role,
            match added {
                Ok(()) => {
                    &&& !old(self)@.teams.contains(name@)
                    &&& final(self)@.teams.len() == old(self)@.teams.len() + 1
                    &&& forall|other: Seq<char>|
                        final(self)@.teams.contains(other) <==> (old(self)@.teams.contains(other)
                            || other == name@)
                },
                Err(e) => {
                    &&& e == GameSetupErr::TeamNameDuplicated
                    &&& old(self)@.teams.contains(name@)
                    &&& final(self)@ == old(self)@
                },
            },
    {
        let already_exists = !self.team_names.insert(name.to_owned());
        if already_exists {
            Err(GameSetupErr::TeamNameDuplicated)
        } else {
            Ok(())
        }
    }

    /// Adds the player called `name`. No two players can have the same name.
    pub fn add_player(&mut self, name: &str) -> (added: OptErr<GameSetupErr>)
        requires
            old(self).wf(),
        ensures
            final(self).wf(),
            final(self)@.teams == old(self)@.teams,
            final(self)@.without_role == old(self)@.without_role,
            match added {
                Ok(()) => {
                    &&& !old(self)@.players.contains(name@)
                    &&& final(self)@.players.len() == old(self)@.players.len() + 1
                    &&& forall|other: Seq<char>|
                        final(self)@.players.contains(other) <==> (old(self)@.players.contains(
                            other,
                        ) || other == name@)
                },
                Err(e) => {
                    &&& e == GameSetupErr::PlayerNameDuplicated
                    &&& old(self)@.players.contains(name@)
                    &&& final(self)@ == old(self)@
                },
            },
    {
        let already_exists = !self.player_names.insert(name.to_owned());
        if already_exists {
            Err(GameSetupErr::PlayerNameDuplicated)
        } else {
            Ok(())
        }
    }

    /// Exempts the player called `name` from roles. The player must exist.
    pub fn player_without_role(&mut self, name: &str) -> (exempted: OptErr<GameSetupErr>)
        requires
            old(self).wf(),
        ensures
            final(self).wf(),
            final(self)@.teams == old(self)@.teams,
            final(self)@.players == old(self)@.players,
            match exempted {
                Ok(()) => {
                    &&& old(self)@.players.contains(name@)
                    &&& forall|other: Seq<char>|
                        final(self)@.without_role.contains(other) <==> (
                        old(self)@.without_role.contains(other) || other == name@)
                },
                Err(e) => {
                    &&& e == GameSetupErr::PlayerDoesNotExist
                    &&& !old(self)@.players.contains(name@)
                    &&& final(self)@ == old(self)@
                },
            },
    {
        if !self.player_names.contains(name) {
            return Err(GameSetupErr::PlayerDoesNotExist);
        }
        self.without_role.insert(name.to_owned());
        proof {
            assert forall|i: int| 0 <= i < self.without_role@.len() implies self.player_names@.contains(
                #[trigger] self.without_role@[i],
            ) by {
                let other = self.without_role@[i];
                assert(self.without_role@.contains(other));
                if old(self).without_role@.contains(other) {
                    let j = choose|j: int|
                        0 <= j < old(self).without_role@.len() && old(self).without_role@[j]
                            == other;
                    assert(old(self).player_names@.contains(old(self).without_role@[j]));
                }
            }
        }
        Ok(())
    }

    /// The names of the teams, in ascending order.
    pub fn team_names(&self) -> (names: Vec<String>)
        ensures
            name_views(names@) == self@.teams,
    {
        self.team_names.to_vec()
    }

    /// The names of the players who get no role, in ascending order.
    pub fn without_role(&self) -> (names: Vec<String>)
        ensures
            name_views(names@) == self@.without_role,
    {
        self.without_role.to_vec()
    }

    /// The names of the players, in ascending order.
    pub fn player_names(&self) -> (names: Vec<String>)
        ensures
            name_views(names@) == self@.players,
    {
        self.player_names.to_vec()
    }
}

/// Whether `players` players are three at least for each of `teams` teams.
fn covers(players: usize, teams: usize) -> (enough: bool)
    ensures
        enough == (players >= 3 * teams),
{
    players / 3 >= teams
}

} // verus!
