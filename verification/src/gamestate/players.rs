//! Players: their names, their roles, their records, and the registry that
//! holds the players of one team.

use crate::gamestate::power::{Power, PowerType, PowerView};
use std::ops::IndexMut;
use vstd::prelude::*;

verus! {

/// The part a player has in the story. A role is given once and never changes.
#[derive(Debug)]
pub enum Role {
    Prophet { target: String },
    Traitor,
    Destined,
}

/// The model of a [`Role`].
pub enum RoleView {
    Prophet { target: Seq<char> },
    Traitor,
    Destined,
}

impl View for Role {
    type V = RoleView;

    open spec fn view(&self) -> RoleView {
        match self {
            Role::Prophet { target } => RoleView::Prophet { target: target@ },
            Role::Traitor => RoleView::Traitor,
            Role::Destined => RoleView::Destined,
        }
    }
}

impl Clone for Role {
    fn clone(&self) -> (role: Role)
        ensures
            role == *self,
    {
        match self {
            Role::Prophet { target } => Role::Prophet { target: target.clone() },
            Role::Traitor => Role::Traitor,
            Role::Destined => Role::Destined,
        }
    }
}

/// The model of an optional role.
pub open spec fn role_view(role: Option<Role>) -> Option<RoleView> {
    match role {
        Some(r) => Some(r@),
        None => None,
    }
}

/// The name by which a player is known. Two names are equal where their
/// letters are.
///
/// A name of this type is only made for a player that exists: by the player's
/// own record, or by a look-up that found the player.
#[derive(Eq, PartialOrd, Ord, Hash, Debug)]
pub struct PName(String);

impl View for PName {
    type V = Seq<char>;

    closed spec fn view(&self) -> Seq<char> {
        self.0@
    }
}

impl Clone for PName {
    fn clone(&self) -> (name: PName)
        ensures
            name == *self,
    {
        PName(self.0.clone())
    }
}

impl PartialEq for PName {
    fn eq(&self, other: &PName) -> (equal: bool) {
        self.0 == other.0
    }
}

impl vstd::std_specs::cmp::PartialEqSpecImpl for PName {
    open spec fn obeys_eq_spec() -> bool {
        true
    }

    open spec fn eq_spec(&self, other: &PName) -> bool {
        self@ == other@
    }
}

impl PartialEq<&str> for PName {
    fn eq(&self, s: &&str) -> (equal: bool) {
        self.is_named(*s)
    }
}

impl vstd::std_specs::cmp::PartialEqSpecImpl<&str> for PName {
    open spec fn obeys_eq_spec() -> bool {
        true
    }

    open spec fn eq_spec(&self, s: &&str) -> bool {
        self@ == s@
    }
}

impl PName {
    /// The letters of the name.
    pub fn as_str(&self) -> (letters: &str)
        ensures
            letters@ == self@,
    {
        self.0.as_str()
    }

    /// Whether the name is written `letters`.
    pub fn is_named(&self, letters: &str) -> (same: bool)
        ensures
            same == (self@ == letters@),
    {
        let other = letters.to_owned();
        self.0 == other
    }
}

/// The letters of each of a sequence of players' names.
pub open spec fn pname_views(names: Seq<PName>) -> Seq<Seq<char>> {
    names.map_values(|name: PName| name@)
}

/// Whether `name` is among `names`.
pub fn contains_name(names: &Vec<PName>, name: &PName) -> (found: bool)
    ensures
        found == pname_views(names@).contains(name@),
{
    let mut i: usize = 0;
    while i < names.len()
        invariant
            i <= names.len(),
            forall|j: int| 0 <= j < i ==> (#[trigger] pname_views(names@)[j]) != name@,
        decreases names.len() - i,
    {
        if names[i] == *name {
            assert(pname_views(names@)[i as int] == name@);
            return true;
        }
        i += 1;
    }
    false
}

/// The letters of each of a sequence of names.
pub open spec fn name_views(names: Seq<String>) -> Seq<Seq<char>> {
    names.map_values(|name: String| name@)
}

/// What is left of the names `before` once the names in `served` are taken out.
pub open spec fn names_left(before: Set<Seq<char>>, served: Seq<Seq<char>>) -> Set<Seq<char>> {
    Set::new(|name: Seq<char>| before.contains(name) && !served.contains(name))
}

/// A source of the attributes that players are made with.
///
/// A pool is set up for a known set of players. It hands out one set of
/// holdings per player, and decides on a role for each player once, by name:
/// roles depend on one another, so the name is needed.
///
/// What a pool has left is said by `powers_left` and `awaiting`. A pool that
/// does not say has nothing left: verified code asks nothing of it.
pub trait PlayerAttributePool {
    /// What the pool needs to hold of itself between two calls.
    open spec fn pool_wf(&self) -> bool {
        true
    }

    /// How many more holdings the pool can hand out.
    open spec fn powers_left(&self) -> nat {
        0
    }

    /// The names of the players for whom a role is still to be decided.
    open spec fn awaiting(&self) -> Set<Seq<char>> {
        Set::empty()
    }

    /// The holdings that the pool may hand out. By default, any.
    open spec fn holdings_offered(&self) -> Set<PowerView> {
        Set::full()
    }

    /// The roles that the pool may decide on, each with the name of the player
    /// who may get it; no role is a decision too. By default, any.
    open spec fn roles_offered(&self) -> Set<(Seq<char>, Option<RoleView>)> {
        Set::full()
    }

    /// The holdings of the next player.
    fn next_power(&mut self) -> (power: Power)
        requires
            old(self).pool_wf(),
            old(self).powers_left() > 0,
        ensures
            final(self).pool_wf(),
            final(self).powers_left() == old(self).powers_left() - 1,
            final(self).awaiting() == old(self).awaiting(),
            final(self).holdings_offered() == old(self).holdings_offered(),
            final(self).roles_offered() == old(self).roles_offered(),
            power.wf(),
            old(self).holdings_offered().contains(power@),
    ;

    /// The role of the player called `name`, if the player gets one.
    fn next_role(&mut self, name: &str) -> (role: Option<Role>)
        requires
            old(self).pool_wf(),
            old(self).awaiting().contains(name@),
        ensures
            final(self).pool_wf(),
            final(self).powers_left() == old(self).powers_left(),
            final(self).awaiting() == old(self).awaiting().remove(name@),
            final(self).holdings_offered() == old(self).holdings_offered(),
            final(self).roles_offered() == old(self).roles_offered(),
            old(self).roles_offered().contains((name@, role_view(role))),
    ;

    /// Whether everything has been handed out. Once no holdings are left and no
    /// player is awaited, the pool is empty; and an empty pool has no holdings
    /// left.
    fn is_empty(&self) -> (empty: bool)
        requires
            self.pool_wf(),
        ensures
            self.powers_left() == 0 && self.awaiting() =~= Set::empty() ==> empty,
            empty ==> self.powers_left() == 0,
    ;
}

/// Whether `player` has holdings and a role that `pool` may give.
pub open spec fn dealt_by<P: PlayerAttributePool + ?Sized>(pool: &P, player: PlayerView) -> bool {
    &&& pool.holdings_offered().contains(player.power)
    &&& pool.roles_offered().contains((player.name, player.role))
}

/// The model of a [`Player`].
pub struct PlayerView {
    pub name: Seq<char>,
    pub team: Seq<char>,
    pub power: PowerView,
    pub role: Option<RoleView>,
}

impl PlayerView {
    /// The same player after the colour `ptype` is spent.
    pub open spec fn without(self, ptype: PowerType) -> PlayerView {
        PlayerView { power: self.power.without(ptype), ..self }
    }

    /// The player's holdings are well formed.
    pub open spec fn wf(self) -> bool {
        self.power.wf()
    }
}

/// What a player with the role `role` is told of it.
pub open spec fn spec_format_role(role: Option<RoleView>) -> Seq<char> {
    match role {
        Some(RoleView::Prophet { target }) => "Prophet: protect "@ + target + " at all costs"@,
        Some(RoleView::Traitor) => "Traitor: try not to let the destined one survive"@,
        _ => "Few know their own destiny; you have yet to discover yours."@,
    }
}

/// The record of one player.
#[derive(Debug)]
pub struct Player {
    pub name: PName,
    pub team: String,
    // Read with `strength` and `has_power`, changed only by `lose_power`.
    power: Power,
    // Never changed. A role bears on how the player acts and on who wins.
    role: Option<Role>,
}

impl View for Player {
    type V = PlayerView;

    closed spec fn view(&self) -> PlayerView {
        PlayerView {
            name: self.name@,
            team: self.team@,
            power: self.power@,
            role: role_view(self.role),
        }
    }
}

impl Clone for Player {
    fn clone(&self) -> (player: Player)
        ensures
            player == *self,
    {
        let role = match &self.role {
            Some(r) => Some(r.clone()),
            None => None,
        };
        Player { name: self.name.clone(), team: self.team.clone(), power: self.power, role }
    }
}

impl Player {
    /// The player's holdings are well formed.
    pub open spec fn wf(&self) -> bool {
        self@.wf()
    }

    /// The player's name.
    pub fn name(&self) -> (name: &PName)
        ensures
            name@ == self@.name,
    {
        &self.name
    }

    /// The name of the team that the player was made for.
    pub fn team(&self) -> (team: &str)
        ensures
            team@ == self@.team,
    {
        self.team.as_str()
    }

    /// A player called `name` on the team `team`, with the role and the
    /// holdings that `attribute_pool` gives next: the role is asked for first.
    pub fn new<P: PlayerAttributePool + ?Sized>(
        name: String,
        team: &str,
        attribute_pool: &mut P,
    ) -> (player: Player)
        requires
            old(attribute_pool).pool_wf(),
            old(attribute_pool).awaiting().contains(name@),
            old(attribute_pool).powers_left() > 0,
        ensures
            player@.name == name@,
            player@.team == team@,
            player.wf(),
            dealt_by(old(attribute_pool), player@),
            final(attribute_pool).pool_wf(),
            final(attribute_pool).powers_left() == old(attribute_pool).powers_left() - 1,
            final(attribute_pool).awaiting() == old(attribute_pool).awaiting().remove(name@),
            final(attribute_pool).holdings_offered() == old(attribute_pool).holdings_offered(),
            final(attribute_pool).roles_offered() == old(attribute_pool).roles_offered(),
    {
        let role = attribute_pool.next_role(name.as_str());
        let power = attribute_pool.next_power();
        Player::with_attributes(name, team, power, role)
    }

    /// A player with the given name, team, holdings and role.
    pub fn with_attributes(name: String, team: &str, power: Power, role: Option<Role>) -> (player:
        Player)
        ensures
            player@ == (PlayerView {
                name: name@,
                team: team@,
                power: power@,
                role: role_view(role),
            }),
    {
        Player { name: PName(name), team: team.to_owned(), power, role }
    }

    /// The player's strength in the colour `ptype`: what is held of it, or `0`.
    pub fn strength(&self, ptype: PowerType) -> (s: i8)
        ensures
            s == self@.power.strength(ptype),
    {
        self.power[ptype].into()
    }

    /// Whether the player still holds the colour `ptype`.
    pub fn has_power(&self, ptype: PowerType) -> (has: bool)
        ensures
            has == self@.power.has(ptype),
    {
        self.power[ptype].nonempty()
    }

    /// Spends the colour `ptype`. Nothing else about the player changes.
    pub fn lose_power(&mut self, ptype: PowerType)
        ensures
            final(self)@ == old(self)@.without(ptype),
    {
        broadcast use Power::lemma_view_spec_with;

        self.power.index_mut(ptype).discard()
    }

    /// The colours that the player still holds, in the order Red, Blue, Green.
    pub fn powers_remaining(&self) -> (colours: Vec<PowerType>)
        ensures
            colours@ == self@.power.remaining(),
    {
        let mut colours: Vec<PowerType> = Vec::new();
        if self.has_power(PowerType::Red) {
            colours.push(PowerType::Red);
        }
        if self.has_power(PowerType::Blue) {
            colours.push(PowerType::Blue);
        }
        if self.has_power(PowerType::Green) {
            colours.push(PowerType::Green);
        }
        assert(colours@ =~= self@.power.remaining());
        colours
    }

    /// What the player is told of the role. A destined player is not told.
    pub fn format_role(&self) -> (text: String)
        ensures
            text@ == spec_format_role(self@.role),
    {
        match &self.role {
            Some(Role::Prophet { target }) => String::from_str("Prophet: protect ").concat(
                target.as_str(),
            ).concat(" at all costs"),
            Some(Role::Traitor) => String::from_str(
                "Traitor: try not to let the destined one survive",
            ),
            _ => String::from_str("Few know their own destiny; you have yet to discover yours."),
        }
    }

    /// Whether the player has spent every colour.
    pub fn is_dead(&self) -> (dead: bool)
        ensures
            dead == self@.power.is_dead(),
    {
        !self.has_power(PowerType::Red) && !self.has_power(PowerType::Blue) && !self.has_power(
            PowerType::Green,
        )
    }
}

/// Whether a player called `name` is among `players`.
pub open spec fn roster_has(players: Seq<PlayerView>, name: Seq<char>) -> bool {
    exists|i: int| 0 <= i < players.len() && (#[trigger] players[i]).name == name
}

/// The names of `players`, in their order.
pub open spec fn roster_names(players: Seq<PlayerView>) -> Seq<Seq<char>> {
    players.map_values(|player: PlayerView| player.name)
}

/// No two of `players` share a name, and each one's holdings are well formed.
pub open spec fn roster_wf(players: Seq<PlayerView>) -> bool {
    &&& forall|i: int, j: int|
        0 <= i < j < players.len() ==> (#[trigger] players[i]).name != (#[trigger] players[j]).name
    &&& forall|i: int| 0 <= i < players.len() ==> (#[trigger] players[i]).wf()
}

/// The players of one team, each found by name. They are kept in the order in
/// which they joined.
#[derive(Debug)]
pub struct PlayersByName(Vec<Player>);

impl View for PlayersByName {
    type V = Seq<PlayerView>;

    closed spec fn view(&self) -> Seq<PlayerView> {
        self.0@.map_values(|player: Player| player@)
    }
}

impl Clone for PlayersByName {
    fn clone(&self) -> (players: PlayersByName)
        ensures
            players@ == self@,
    {
        let mut copies: Vec<Player> = Vec::new();
        let mut i: usize = 0;
        while i < self.0.len()
            invariant
                i <= self.0.len(),
                copies@ == self.0@.take(i as int),
            decreases self.0.len() - i,
        {
            copies.push(self.0[i].clone());
            assert(copies@ =~= self.0@.take(i + 1));
            i += 1;
        }
        assert(copies@ =~= self.0@);
        PlayersByName(copies)
    }
}

impl Default for PlayersByName {
    fn default() -> (players: PlayersByName)
        ensures
            players@ == Seq::<PlayerView>::empty(),
    {
        let players = PlayersByName(Vec::new());
        assert(players@ =~= Seq::<PlayerView>::empty());
        players
    }
}

/// What each of `all` holds now.
pub open spec fn held_by(all: Seq<&mut Player>) -> Seq<PlayerView> {
    Seq::new(all.len(), |k: int| (*all[k])@)
}

/// Every one of `items`, in order, to be changed in place. The vector
/// afterwards holds each as the caller left it.
pub(crate) fn each_mut<T>(items: &mut Vec<T>) -> (all: Vec<&mut T>)
    ensures
        all@.len() == old(items)@.len(),
        final(items)@.len() == old(items)@.len(),
        forall|i: int| 0 <= i < all@.len() ==> *(#[trigger] all@[i]) == old(items)@[i],
        forall|i: int| 0 <= i < all@.len() ==> final(items)@[i] == *final(#[trigger] all@[i]),
{
    let mut all: Vec<&mut T> = Vec::new();
    let mut rest: &mut [T] = items.as_mut_slice();
    let ghost whole = rest;
    while rest.len() > 0
        invariant
            all@.len() + rest@.len() == old(items)@.len(),
            rest@ == old(items)@.subrange(all@.len() as int, old(items)@.len() as int),
            forall|i: int| 0 <= i < all@.len() ==> *(#[trigger] all@[i]) == old(items)@[i],
            final(whole)@.len() == all@.len() + final(rest)@.len(),
            forall|i: int| 0 <= i < all@.len() ==> final(whole)@[i] == *final(#[trigger] all@[i]),
            forall|j: int|
                0 <= j < final(rest)@.len() ==> final(whole)@[all@.len() + j] == final(rest)@[j],
        decreases rest@.len(),
    {
        let ghost before = rest;
        let ghost so_far = all@;
        let (head, tail) = rest.split_at_mut(1);
        let ghost first = head;
        if let Some(item) = head.last_mut() {
            all.push(item);
        }
        rest = tail;
        proof {
            let k = so_far.len() as int;
            assert(forall|i: int| 0 <= i < k ==> all@[i] == so_far[i]);
            assert(final(first)@ =~= seq![*final(all@[k])]);
            assert(final(before)@[0] == final(first)@[0]);
            assert(final(whole)@[k + 0] == final(before)@[0]);
            assert forall|j: int| 0 <= j < final(rest)@.len() implies final(whole)@[all@.len() + j]
                == final(rest)@[j] by {
                assert(final(before)@[1 + j] == final(rest)@[j]);
                assert(final(whole)@[k + (1 + j)] == final(before)@[1 + j]);
            }
        }
    }
    assert(after_borrow(*items)@ == final(whole)@);
    all
}

impl PlayersByName {
    /// No two players share a name, and each one's holdings are well formed.
    pub open spec fn wf(&self) -> bool {
        roster_wf(self@)
    }

    /// The players called `names`, in that order, each made for the team `team`
    /// with what `attribute_pool` gives next.
    pub fn from<P: PlayerAttributePool + ?Sized>(
        team: &str,
        names: Vec<String>,
        attribute_pool: &mut P,
    ) -> (players: PlayersByName)
        requires
            old(attribute_pool).pool_wf(),
            old(attribute_pool).powers_left() >= names.len(),
            name_views(names@).no_duplicates(),
            forall|i: int|
                0 <= i < names.len() ==> old(attribute_pool).awaiting().contains(
                    #[trigger] name_views(names@)[i],
                ),
        ensures
            roster_names(players@) == name_views(names@),
            forall|i: int| 0 <= i < players@.len() ==> (#[trigger] players@[i]).team == team@,
            forall|i: int|
                0 <= i < players@.len() ==> dealt_by(old(attribute_pool), #[trigger] players@[i]),
            players.wf(),
            final(attribute_pool).pool_wf(),
            final(attribute_pool).powers_left() == old(attribute_pool).powers_left() - names.len(),
            final(attribute_pool).awaiting() == names_left(
                old(attribute_pool).awaiting(),
                name_views(names@),
            ),
            final(attribute_pool).holdings_offered() == old(attribute_pool).holdings_offered(),
            final(attribute_pool).roles_offered() == old(attribute_pool).roles_offered(),
    {
        let ghost all = name_views(names@);
        let ghost awaited = attribute_pool.awaiting();
        let mut list: Vec<Player> = Vec::new();
        let mut i: usize = 0;
        assert(names_left(awaited, all.take(0)) =~= awaited);
        while i < names.len()
            invariant
                i <= names.len(),
                all == name_views(names@),
                all.no_duplicates(),
                forall|k: int| 0 <= k < names.len() ==> awaited.contains(#[trigger] all[k]),
                list@.len() == i,
                forall|k: int| 0 <= k < i ==> (#[trigger] list@[k])@.name == all[k],
                forall|k: int| 0 <= k < i ==> (#[trigger] list@[k])@.team == team@,
                forall|k: int| 0 <= k < i ==> (#[trigger] list@[k]).wf(),
                forall|k: int| 0 <= k < i ==> dealt_by(old(attribute_pool), (#[trigger] list@[k])@),
                attribute_pool.holdings_offered() == old(attribute_pool).holdings_offered(),
                attribute_pool.roles_offered() == old(attribute_pool).roles_offered(),
                attribute_pool.pool_wf(),
                attribute_pool.powers_left() == old(attribute_pool).powers_left() - i,
                old(attribute_pool).powers_left() >= names.len(),
                attribute_pool.awaiting() == names_left(awaited, all.take(i as int)),
            decreases names.len() - i,
        {
            let name = names[i].clone();
            assert(name@ == all[i as int]);
            assert(!all.take(i as int).contains(all[i as int]));
            let player = Player::new(name, team, attribute_pool);
            list.push(player);
            assert(attribute_pool.awaiting() =~= names_left(awaited, all.take(i + 1))) by {
                let before = all.take(i as int);
                let after = all.take(i + 1);
                assert(after =~= before.push(all[i as int]));
                assert forall|n: Seq<char>| after.contains(n) <==> (before.contains(n) || n
                    == all[i as int]) by {
                    if before.contains(n) {
                        let k = choose|k: int| 0 <= k < before.len() && before[k] == n;
                        assert(after[k] == n);
                    }
                    if n == all[i as int] {
                        assert(after[i as int] == n);
                    }
                }
            }
            i += 1;
        }
        assert(all.take(i as int) =~= all);
        let players = PlayersByName(list);
        assert(roster_names(players@) =~= all);
        players
    }

    /// How many players there are.
    pub fn len(&self) -> (n: usize)
        ensures
            n == self@.len(),
    {
        self.0.len()
    }

    /// The player at the place `i`.
    pub fn at(&self, i: usize) -> (player: &Player)
        requires
            i < self@.len(),
        ensures
            player@ == self@[i as int],
    {
        &self.0[i]
    }

    /// The place of the player called `name`.
    pub fn position(&self, name: &PName) -> (place: Option<usize>)
        ensures
            match place {
                Some(i) => i < self@.len() && self@[i as int].name == name@ && forall|j: int|
                    0 <= j < i ==> (#[trigger] self@[j]).name != name@,
                None => !roster_has(self@, name@),
            },
    {
        let mut i: usize = 0;
        while i < self.0.len()
            invariant
                i <= self.0.len(),
                forall|j: int| 0 <= j < i ==> (#[trigger] self@[j]).name != name@,
            decreases self.0.len() - i,
        {
            if self.0[i].name == *name {
                return Some(i);
            }
            i += 1;
        }
        None
    }

    /// The player called `name`, if there is one.
    pub fn find_player(&self, name: &PName) -> (found: Option<&Player>)
        ensures
            match found {
                Some(player) => roster_has(self@, name@) && player@.name == name@
                    && self@.contains(player@),
                None => !roster_has(self@, name@),
            },
    {
        match self.position(name) {
            Some(i) => {
                assert(self@[i as int] == self.0@[i as int]@);
                Some(&self.0[i])
            },
            None => None,
        }
    }

    /// The player called `name`, if there is one, to be changed in place. The
    /// registry afterwards holds the player as the caller left it.
    pub fn find_mut(&mut self, name: &PName) -> (found: Option<&mut Player>)
        ensures
            match found {
                Some(player) => exists|i: int|
                    {
                        &&& 0 <= i < old(self)@.len()
                        &&& #[trigger] old(self)@[i] == player@
                        &&& player@.name == name@
                        &&& final(self)@ == old(self)@.update(i, final(player)@)
                    },
                None => !roster_has(old(self)@, name@) && final(self)@ == old(self)@,
            },
    {
        match self.position(name) {
            Some(i) => {
                let ghost before = self@;
                let player = &mut self.0[i];
                proof {
                    assert(before[i as int] == player@);
                    assert(after_borrow(self.0)@ == old(self).0@.update(i as int, *final(player)));
                    assert(after_borrow(self.0)@.map_values(|p: Player| p@) =~= before.update(
                        i as int,
                        final(player)@,
                    ));
                }
                Some(player)
            },
            None => None,
        }
    }

    /// All the players, in their order.
    pub fn players(&self) -> (all: Vec<&Player>)
        ensures
            all@.len() == self@.len(),
            forall|i: int| 0 <= i < all@.len() ==> (#[trigger] all@[i])@ == self@[i],
    {
        let mut all: Vec<&Player> = Vec::new();
        let mut i: usize = 0;
        while i < self.0.len()
            invariant
                i <= self.0.len(),
                all@.len() == i,
                forall|k: int| 0 <= k < i ==> (#[trigger] all@[k])@ == self@[k],
            decreases self.0.len() - i,
        {
            all.push(&self.0[i]);
            i += 1;
        }
        all
    }

    /// All the players, in their order, each to be changed in place. The
    /// registry afterwards holds each player as the caller left it.
    pub fn players_mut(&mut self) -> (all: Vec<&mut Player>)
        ensures
            held_by(all@) == old(self)@,
            final(self)@.len() == all@.len(),
            forall|i: int| 0 <= i < all@.len() ==> final(self)@[i] == final(#[trigger] all@[i])@,
    {
        let all = each_mut(&mut self.0);
        proof {
            assert(held_by(all@) =~= old(self)@);
            assert forall|i: int| 0 <= i < all@.len() implies after_borrow(self.0)@.map_values(
                |p: Player| p@,
            )[i] == final(#[trigger] all@[i])@ by {
                assert(after_borrow(self.0)@[i] == *final(all@[i]));
            }
        }
        all
    }

    /// The player at the place `i` spends the colour `ptype`.
    pub fn lose_power_at(&mut self, i: usize, ptype: PowerType)
        requires
            i < old(self)@.len(),
        ensures
            final(self)@ == old(self)@.update(i as int, old(self)@[i as int].without(ptype)),
    {
        self.0[i].lose_power(ptype);
        assert(self@ =~= old(self)@.update(i as int, old(self)@[i as int].without(ptype)));
    }
}

} // verus!
