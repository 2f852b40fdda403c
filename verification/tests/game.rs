use ultlib::actions::attack::{Attack, DeclaredAttack, InvalidAttackErr};
use ultlib::actions::resolution::Standing;
use ultlib::gamestate::active::ActiveGame;
use ultlib::gamestate::builder::{GameSetupErr, Setup, StartGameErr};
use ultlib::gamestate::players::{PlayerAttributePool, Role};
use ultlib::gamestate::power::{Power, PowerType};
use ultlib::gamestate::teams::{Slot, TName, TeamsByName};
use ultlib::gamestate::with_history::{GameHistory, HistoryNavigationErr};

/// A pool that hands out the holdings it was made with, in their order, and no
/// roles.
struct FixedPool {
    powers: Vec<Power>,
}

impl FixedPool {
    fn of(powers: Vec<(i8, i8, i8)>) -> FixedPool {
        // Holdings are popped from the end: the first player gets the first.
        FixedPool {
            powers: powers
                .into_iter()
                .rev()
                .map(|(red, blue, green)| Power::with_magnitudes(red, blue, green))
                .collect(),
        }
    }
}

impl PlayerAttributePool for FixedPool {
    fn next_power(&mut self) -> Power {
        self.powers.pop().unwrap()
    }

    fn next_role(&mut self, _name: &str) -> Option<Role> {
        None
    }

    fn is_empty(&self) -> bool {
        self.powers.is_empty()
    }
}

fn names(list: &[&str]) -> Vec<String> {
    list.iter().map(|name| name.to_string()).collect()
}

const ALL: [PowerType; 3] = [PowerType::Red, PowerType::Blue, PowerType::Green];

/// Geats: Kyle, Laura, Suzie, Luna. Danes: Brandon, Lauren, Annabelle, Rosie.
/// Holdings are given as (red, blue, green).
fn fixed_game() -> ActiveGame {
    ActiveGame::new_in_order(
        names(&["Kyle", "Laura", "Suzie", "Luna", "Brandon", "Lauren", "Annabelle", "Rosie"]),
        names(&["Geats", "Danes"]),
        FixedPool::of(vec![
            (3, 1, 2),
            (2, 2, 2),
            (1, 5, 1),
            (4, 4, 4),
            (5, 3, 1),
            (1, 1, 1),
            (2, 3, 4),
            (5, 5, 5),
        ]),
    )
}

fn strengths(state: &TeamsByName, name: &str) -> (i8, i8, i8) {
    let (pname, _) = state.player_by_name(name).unwrap();
    let player = state.player_data(&pname);
    (
        player.strength(PowerType::Red),
        player.strength(PowerType::Blue),
        player.strength(PowerType::Green),
    )
}

fn honor(state: &TeamsByName, team: &str) -> i16 {
    let index = state.team_position(&TName(team.to_string())).unwrap();
    state.team_at(index).honor()
}

fn roster(state: &TeamsByName, team: usize) -> Vec<String> {
    (0..state.team_size(team))
        .map(|place| state.player_at(Slot { team, place }).name().as_str().to_string())
        .collect()
}

fn build(
    state: &TeamsByName,
    attacker: &str,
    defender: &str,
    def_power: PowerType,
    defenders: &[&str],
    att_power: PowerType,
    attackers: &[&str],
) -> Attack {
    let mut defence = DeclaredAttack::declare(state, attacker, defender, def_power).unwrap();
    for name in defenders {
        defence.add(name).unwrap();
    }
    let mut offence = defence.finalize_defense_with(att_power);
    for name in attackers {
        offence.add(name).unwrap();
    }
    offence.finalize_offense()
}

#[test]
fn dummy_game() {
    let mut game = Setup::new_game()
        .add_team_or_panic("Geats")
        .add_player_or_panic("Kyle")
        .add_player_or_panic("Laura")
        .add_team_or_panic("Danes")
        .add_player_or_panic("Brandon")
        .add_player_or_panic("Suzie")
        .add_player_or_panic("Lauren")
        .add_player_or_panic("Annabelle")
        .add_player_or_panic("Luna")
        .add_player_or_panic("Rosie")
        .player_without_role_or_panic("Annabelle")
        .finalize()
        .unwrap();
    println!("Start-of-game setup: {:?}", &game);

    assert!(game.player_data(&game.player_by_name("Annabelle").unwrap().0).format_role() == "Few know their own destiny; you have yet to discover yours.");

    let attack = DeclaredAttack::declare(
        &game.current_state(),
        "Kyle",
        "Brandon",
        PowerType::Red,
    )
    .unwrap()
    .add_or_panic("Laura")
    .add_or_panic("Annabelle")
    .finalize_defense()
    .add_or_panic("Suzie")
    .finalize_offense();

    let attack_color = attack.attack_power();

    println!("Attack: {:#?}", &attack);
    assert!(attack.can_resolve(game.current_state()));
    game.apply_attack(attack);
    println!("After attack resolves: {:?}", &game);

    // Defenders should only lose the color they defended with; assists should
    // always lose power
    let brandon = game.player_data(&game.player_by_name("Brandon").unwrap().0);
    assert!(brandon.has_power(PowerType::Blue));
    assert!(brandon.has_power(PowerType::Green));
    let laura = game.player_data(&game.player_by_name("Laura").unwrap().0);
    assert!(laura.has_power(PowerType::Blue));
    assert!(laura.has_power(PowerType::Green));
    assert!(!laura.has_power(PowerType::Red));
    let annabelle = game.player_data(&game.player_by_name("Annabelle").unwrap().0);
    assert!(annabelle.has_power(PowerType::Blue));
    assert!(annabelle.has_power(PowerType::Green));
    assert!(!annabelle.has_power(PowerType::Red));

    let kyle = game.player_data(&game.player_by_name("Kyle").unwrap().0);
    let suzie = game.player_data(&game.player_by_name("Suzie").unwrap().0);
    for color in &[PowerType::Red, PowerType::Green, PowerType::Blue] {
        if *color != attack_color {
            // Attackers should only lose the color they attacked with
            assert!(kyle.has_power(*color));
            assert!(suzie.has_power(*color));
        }
        else {
            // assists should always lose power
            assert!(!suzie.has_power(*color));
        }
    }

    // Exactly one of the two primaries has lost the colour of the own side.
    let kyle_lost = !kyle.has_power(attack_color);
    let brandon_lost = !brandon.has_power(PowerType::Red);
    assert!(kyle_lost != brandon_lost);
}

#[test]
fn deals_players_in_order() {
    let game = ActiveGame::new_in_order(
        names(&["a", "b", "c", "d", "e", "f", "g"]),
        names(&["Danes", "Geats"]),
        FixedPool::of(vec![(1, 2, 3); 7]),
    );
    let state = game.current_state();
    assert_eq!(state.team_count(), 2);
    assert_eq!(state.team_name(0).0, "Danes");
    assert_eq!(state.team_name(1).0, "Geats");
    assert_eq!(roster(state, 0), names(&["a", "b", "c", "d"]));
    assert_eq!(roster(state, 1), names(&["e", "f", "g"]));
    assert_eq!(honor(state, "Danes"), 0);
    assert_eq!(honor(state, "Geats"), 0);
    for place in 0..4 {
        assert_eq!(state.player_at(Slot { team: 0, place }).team(), "Danes");
    }
    for place in 0..3 {
        assert_eq!(state.player_at(Slot { team: 1, place }).team(), "Geats");
    }
    assert_eq!(strengths(state, "e"), (1, 2, 3));
}

#[test]
fn teams_are_as_even_as_can_be() {
    for (players, teams) in [(9usize, 3usize), (10, 3), (11, 3), (6, 2), (7, 2), (13, 4), (3, 5)] {
        let player_names: Vec<String> = (0..players).map(|i| format!("p{:02}", i)).collect();
        let team_names: Vec<String> = (0..teams).map(|i| format!("t{}", i)).collect();
        let game = ActiveGame::new_in_order(
            player_names.clone(),
            team_names,
            FixedPool::of(vec![(1, 1, 1); players]),
        );
        let state = game.current_state();
        assert_eq!(state.team_count(), teams);
        let mut larger = 0;
        let mut dealt: Vec<String> = Vec::new();
        for team in 0..teams {
            let size = state.team_size(team);
            assert!(size == players / teams || size == players / teams + 1);
            if size == players / teams + 1 {
                larger += 1;
                // The teams with one more player are the first ones.
                assert!(team < players % teams);
            }
            dealt.extend(roster(state, team));
        }
        assert_eq!(larger, players % teams);
        assert_eq!(dealt, player_names);
    }
}

#[test]
fn ten_players_on_three_teams() {
    let player_names: Vec<String> = (0..10).map(|i| format!("p{}", i)).collect();
    let game = ActiveGame::new_in_order(
        player_names,
        names(&["x", "y", "z"]),
        FixedPool::of(vec![(1, 1, 1); 10]),
    );
    let state = game.current_state();
    assert_eq!(state.team_size(0), 4);
    assert_eq!(state.team_size(1), 3);
    assert_eq!(state.team_size(2), 3);
}

#[test]
fn new_game_shuffles_and_keeps_everyone() {
    let player_names: Vec<String> = (0..52).map(|i| format!("p{:02}", i)).collect();
    let game = ActiveGame::new(
        player_names.clone(),
        names(&["left", "right"]),
        FixedPool::of(vec![(1, 1, 1); 52]),
    );
    let state = game.current_state();
    assert_eq!(state.team_size(0), 26);
    assert_eq!(state.team_size(1), 26);
    let mut dealt = roster(state, 0);
    dealt.extend(roster(state, 1));
    // Left to chance, the order is not the order given.
    assert_ne!(dealt, player_names);
    // Everybody is dealt, once.
    dealt.sort();
    assert_eq!(dealt, player_names);
    let all: Vec<String> =
        state.players().iter().map(|player| player.name().as_str().to_string()).collect();
    assert_eq!(all.len(), 52);
}

#[test]
fn setup_orders_teams_by_name() {
    let mut setup = Setup::new_game();
    setup.add_team("Geats").unwrap();
    setup.add_team("Danes").unwrap();
    for name in ["g", "f", "e", "d", "c", "b", "a"] {
        setup.add_player(name).unwrap();
    }
    assert_eq!(setup.team_names(), names(&["Danes", "Geats"]));
    assert_eq!(setup.player_names(), names(&["a", "b", "c", "d", "e", "f", "g"]));
    let game = setup.finalize().unwrap();
    let state = game.current_state();
    // The team that comes first by name gets the player left over.
    assert_eq!(state.team_name(0).0, "Danes");
    assert_eq!(state.team_size(0), 4);
    assert_eq!(state.team_name(1).0, "Geats");
    assert_eq!(state.team_size(1), 3);
    let mut dealt = roster(state, 0);
    dealt.extend(roster(state, 1));
    dealt.sort();
    assert_eq!(dealt, names(&["a", "b", "c", "d", "e", "f", "g"]));
    // Holdings are thrown with a die.
    for player in state.players() {
        for colour in ALL {
            assert!(player.has_power(colour));
            assert!((1..=5).contains(&player.strength(colour)));
        }
    }
}

#[test]
fn setup_refuses_duplicates_and_strangers() {
    let mut setup = Setup::new_game();
    assert_eq!(setup.add_team("Geats"), Ok(()));
    assert_eq!(setup.add_team("Geats"), Err(GameSetupErr::TeamNameDuplicated));
    assert_eq!(setup.add_player("Kyle"), Ok(()));
    assert_eq!(setup.add_player("Kyle"), Err(GameSetupErr::PlayerNameDuplicated));
    assert_eq!(setup.player_without_role("Nobody"), Err(GameSetupErr::PlayerDoesNotExist));
    assert_eq!(setup.player_without_role("Kyle"), Ok(()));
    assert_eq!(setup.player_without_role("Kyle"), Ok(()));
    assert_eq!(setup.team_names(), names(&["Geats"]));
    assert_eq!(setup.player_names(), names(&["Kyle"]));
}

#[test]
fn setup_needs_two_teams() {
    let mut setup = Setup::new_game();
    setup.add_team("Geats").unwrap();
    for name in ["a", "b", "c", "d", "e", "f"] {
        setup.add_player(name).unwrap();
    }
    assert!(matches!(setup.finalize(), Err(StartGameErr::TeamsNotEstablished)));
    assert!(matches!(Setup::new_game().finalize(), Err(StartGameErr::TeamsNotEstablished)));
}

#[test]
fn setup_needs_three_players_for_each_team() {
    let mut setup = Setup::new_game();
    setup.add_team("Geats").unwrap();
    setup.add_team("Danes").unwrap();
    for name in ["a", "b", "c", "d", "e"] {
        setup.add_player(name).unwrap();
    }
    assert!(matches!(setup.finalize(), Err(StartGameErr::TooFewPlayers)));

    let mut setup = Setup::new_game();
    setup.add_team("Geats").unwrap();
    setup.add_team("Danes").unwrap();
    for name in ["a", "b", "c", "d", "e", "f"] {
        setup.add_player(name).unwrap();
    }
    assert!(setup.finalize().is_ok());
}

#[test]
fn defence_wins_against_a_weak_attack() {
    let game = fixed_game();
    let state = game.current_state();
    // Kyle's blue 1 with the bonus of blue over red, 2, against Brandon's red 5.
    let attack = build(state, "Kyle", "Brandon", PowerType::Red, &[], PowerType::Blue, &[]);
    assert_eq!(attack.attack_power(), PowerType::Blue);
    assert_eq!(attack.defense_power(), PowerType::Red);
    assert!(attack.can_resolve(state));
    let outcome = attack.outcome(state);
    let after = outcome.new_state();
    assert_eq!(strengths(after, "Kyle"), (3, 0, 2));
    assert_eq!(strengths(after, "Brandon"), (5, 3, 1));
    assert_eq!(honor(after, "Danes"), 1);
    assert_eq!(honor(after, "Geats"), 0);
    // The state that the attack was resolved against is as it was.
    assert_eq!(strengths(state, "Kyle"), (3, 1, 2));
    assert_eq!(honor(state, "Danes"), 0);
}

#[test]
fn attack_wins_and_all_assists_pay() {
    let game = fixed_game();
    let state = game.current_state();
    // Luna's red 4 and Kyle's red 3 with the bonus of red over green, 2,
    // against Lauren's green 1 and Annabelle's green 4.
    let attack = build(
        state,
        "Luna",
        "Lauren",
        PowerType::Green,
        &["Annabelle"],
        PowerType::Red,
        &["Kyle"],
    );
    assert!(attack.can_resolve(state));
    let after = attack.outcome(state).new_state;
    // The primary of the side that won is spared.
    assert_eq!(strengths(&after, "Luna"), (4, 4, 4));
    assert_eq!(strengths(&after, "Kyle"), (0, 1, 2));
    assert_eq!(strengths(&after, "Lauren"), (1, 1, 0));
    assert_eq!(strengths(&after, "Annabelle"), (2, 3, 0));
    // Nobody else is touched.
    assert_eq!(strengths(&after, "Laura"), (2, 2, 2));
    assert_eq!(strengths(&after, "Suzie"), (1, 5, 1));
    assert_eq!(strengths(&after, "Brandon"), (5, 3, 1));
    assert_eq!(strengths(&after, "Rosie"), (5, 5, 5));
    // The winners gain the strength of the defence.
    assert_eq!(honor(&after, "Geats"), 5);
    assert_eq!(honor(&after, "Danes"), 0);
    assert_eq!(roster(&after, 0), names(&["Kyle", "Laura", "Suzie", "Luna"]));
    assert_eq!(roster(&after, 1), names(&["Brandon", "Lauren", "Annabelle", "Rosie"]));
}

#[test]
fn a_tie_goes_to_the_defence() {
    let game = fixed_game();
    let state = game.current_state();
    // Kyle's red 3 and Laura's red 2 against Brandon's red 5: no bonus.
    let attack =
        build(state, "Kyle", "Brandon", PowerType::Red, &[], PowerType::Red, &["Laura"]);
    assert!(attack.can_resolve(state));
    let after = attack.outcome(state).new_state;
    assert_eq!(strengths(&after, "Kyle"), (0, 1, 2));
    assert_eq!(strengths(&after, "Laura"), (0, 2, 2));
    assert_eq!(strengths(&after, "Brandon"), (5, 3, 1));
    assert_eq!(honor(&after, "Danes"), 5);
    assert_eq!(honor(&after, "Geats"), 0);
}

#[test]
fn one_more_than_a_tie_goes_to_the_attack() {
    let game = fixed_game();
    let state = game.current_state();
    // Luna's green 4 with the bonus of green over blue, 2, against Rosie's blue 5.
    let attack = build(state, "Luna", "Rosie", PowerType::Blue, &[], PowerType::Green, &[]);
    let after = attack.outcome(state).new_state;
    assert_eq!(strengths(&after, "Luna"), (4, 4, 4));
    assert_eq!(strengths(&after, "Rosie"), (5, 0, 5));
    assert_eq!(honor(&after, "Geats"), 5);
}

#[test]
fn a_disadvantage_counts_against_the_attack() {
    let game = fixed_game();
    let state = game.current_state();
    // Rosie's red 5 with the malus of red under blue, -2, against Luna's blue 4.
    let attack = build(state, "Rosie", "Luna", PowerType::Blue, &[], PowerType::Red, &[]);
    let after = attack.outcome(state).new_state;
    assert_eq!(strengths(&after, "Rosie"), (0, 5, 5));
    assert_eq!(strengths(&after, "Luna"), (4, 4, 4));
    assert_eq!(honor(&after, "Geats"), 5);
    assert_eq!(honor(&after, "Danes"), 0);
}

#[test]
fn unknown_names_are_not_found() {
    let game = fixed_game();
    let state = game.current_state();
    let refused = |attacker: &str, defender: &str| {
        DeclaredAttack::declare(state, attacker, defender, PowerType::Red).err()
    };
    assert_eq!(refused("Nobody", "Brandon"), Some(InvalidAttackErr::CombatantNotFound));
    assert_eq!(refused("Kyle", "Nobody"), Some(InvalidAttackErr::CombatantNotFound));
    assert_eq!(refused("Nobody", "Noone"), Some(InvalidAttackErr::CombatantNotFound));
    assert_eq!(refused("kyle", "Brandon"), Some(InvalidAttackErr::CombatantNotFound));
    assert_eq!(refused("Kyle", "Brandon"), None);

    let mut defence =
        DeclaredAttack::declare(state, "Kyle", "Brandon", PowerType::Red).unwrap();
    assert_eq!(defence.add("Nobody"), Err(InvalidAttackErr::CombatantNotFound));
    let mut offence = defence.finalize_defense();
    assert_eq!(offence.add("Nobody"), Err(InvalidAttackErr::CombatantNotFound));
}

#[test]
fn nobody_joins_a_side_twice() {
    let game = fixed_game();
    let state = game.current_state();
    let mut defence =
        DeclaredAttack::declare(state, "Kyle", "Brandon", PowerType::Red).unwrap();
    assert_eq!(defence.add("Lauren"), Ok(()));
    assert_eq!(defence.add("Lauren"), Err(InvalidAttackErr::DuplicateCombatant));
    assert_eq!(defence.add("Rosie"), Ok(()));
    let mut offence = defence.finalize_defense();
    assert_eq!(offence.add("Laura"), Ok(()));
    assert_eq!(offence.add("Laura"), Err(InvalidAttackErr::DuplicateCombatant));
    assert_eq!(offence.add("Suzie"), Ok(()));
}

#[test]
fn defenders_cannot_attack() {
    let game = fixed_game();
    let state = game.current_state();
    let mut defence =
        DeclaredAttack::declare(state, "Kyle", "Brandon", PowerType::Red).unwrap();
    defence.add("Lauren").unwrap();
    let mut offence = defence.finalize_defense();
    assert_eq!(offence.add("Brandon"), Err(InvalidAttackErr::AttackerAlreadyDefending));
    assert_eq!(offence.add("Lauren"), Err(InvalidAttackErr::AttackerAlreadyDefending));
    assert_eq!(offence.add("Rosie"), Ok(()));
}

#[test]
fn combatants_need_the_colour_of_the_defence() {
    let mut game = fixed_game();
    let (rosie, _) = game.player_by_name("Rosie").unwrap();
    game.player_mut(&rosie).lose_power(PowerType::Red);
    let (laura, _) = game.player_by_name("Laura").unwrap();
    game.player_mut(&laura).lose_power(PowerType::Red);
    let state = game.current_state();
    assert_eq!(strengths(state, "Rosie"), (0, 5, 5));

    assert_eq!(
        DeclaredAttack::declare(state, "Kyle", "Rosie", PowerType::Red).err(),
        Some(InvalidAttackErr::CombatantMissingPowerType)
    );
    assert!(DeclaredAttack::declare(state, "Kyle", "Rosie", PowerType::Blue).is_ok());
    // An attacker need not hold the colour of the defence.
    assert!(DeclaredAttack::declare(state, "Laura", "Brandon", PowerType::Red).is_ok());

    let mut defence =
        DeclaredAttack::declare(state, "Kyle", "Brandon", PowerType::Red).unwrap();
    assert_eq!(defence.add("Rosie"), Err(InvalidAttackErr::CombatantMissingPowerType));
    // An assist of the attack, too, is held to the colour of the defence.
    let mut offence = defence.finalize_defense_with(PowerType::Blue);
    assert_eq!(offence.add("Laura"), Err(InvalidAttackErr::CombatantMissingPowerType));
    assert_eq!(offence.add("Suzie"), Ok(()));
}

#[test]
fn the_dead_cannot_attack() {
    let mut game = fixed_game();
    let (kyle, _) = game.player_by_name("Kyle").unwrap();
    for colour in ALL {
        assert!(!game.player_data(&kyle).is_dead());
        game.player_mut(&kyle).lose_power(colour);
    }
    assert!(game.player_data(&kyle).is_dead());
    assert!(game.player_data(&kyle).powers_remaining().is_empty());
    let state = game.current_state();
    assert_eq!(
        DeclaredAttack::declare(state, "Kyle", "Brandon", PowerType::Red).err(),
        Some(InvalidAttackErr::AttackerIsDead)
    );
    // A missing colour of the defender is found first.
    assert_eq!(
        DeclaredAttack::declare(state, "Kyle", "Kyle", PowerType::Red).err(),
        Some(InvalidAttackErr::CombatantMissingPowerType)
    );
}

#[test]
fn the_colour_of_the_attack_is_one_that_the_attacker_holds() {
    let mut game = fixed_game();
    let (kyle, _) = game.player_by_name("Kyle").unwrap();
    game.player_mut(&kyle).lose_power(PowerType::Red);
    game.player_mut(&kyle).lose_power(PowerType::Blue);
    assert_eq!(game.player_data(&kyle).powers_remaining(), vec![PowerType::Green]);
    let state = game.current_state();
    for _ in 0..20 {
        let offence = DeclaredAttack::declare(state, "Kyle", "Brandon", PowerType::Red)
            .unwrap()
            .finalize_defense();
        assert_eq!(offence.attack_power(), PowerType::Green);
        assert_eq!(offence.finalize_offense().attack_power(), PowerType::Green);
    }
    let (luna, _) = game.player_by_name("Luna").unwrap();
    assert_eq!(
        game.player_data(&luna).powers_remaining(),
        vec![PowerType::Red, PowerType::Blue, PowerType::Green]
    );
}

#[test]
fn every_player_has_a_standing() {
    let game = fixed_game();
    let state = game.current_state();
    let attack = build(
        state,
        "Luna",
        "Lauren",
        PowerType::Green,
        &["Annabelle"],
        PowerType::Red,
        &["Kyle"],
    );
    let standing = |name: &str| attack.standing_of(&state.player_by_name(name).unwrap().0);
    assert_eq!(standing("Luna"), Standing::PrimaryAttacker);
    assert_eq!(standing("Kyle"), Standing::AttackerAssist);
    assert_eq!(standing("Lauren"), Standing::PrimaryDefender);
    assert_eq!(standing("Annabelle"), Standing::DefenderAssist);
    assert_eq!(standing("Rosie"), Standing::Bystander);
}

#[test]
fn an_attack_on_oneself_cannot_be_resolved() {
    let game = fixed_game();
    let state = game.current_state();
    let attack = build(state, "Kyle", "Kyle", PowerType::Red, &[], PowerType::Blue, &[]);
    assert!(!attack.can_resolve(state));
}

#[test]
fn an_attack_of_strangers_cannot_be_resolved() {
    let game = fixed_game();
    let other = ActiveGame::new_in_order(
        names(&["a", "b", "c", "d", "e", "f"]),
        names(&["x", "y"]),
        FixedPool::of(vec![(1, 1, 1); 6]),
    );
    let attack =
        build(other.current_state(), "a", "d", PowerType::Red, &[], PowerType::Blue, &[]);
    assert!(attack.can_resolve(other.current_state()));
    assert!(!attack.can_resolve(game.current_state()));
}

#[test]
fn honor_must_fit_its_counter() {
    let mut game = fixed_game();
    let index = game.current_state().team_position(&TName("Danes".to_string())).unwrap();
    assert_eq!(index, 1);
    let state = game.current_state();
    let attack = build(state, "Kyle", "Brandon", PowerType::Red, &[], PowerType::Blue, &[]);
    assert!(attack.can_resolve(state));
    let mut crowded = state.clone();
    crowded.gain_honor(&TName("Danes".to_string()), i16::MAX);
    assert_eq!(honor(&crowded, "Danes"), i16::MAX);
    assert!(!attack.can_resolve(&crowded));
    game.apply_attack(attack);
    assert_eq!(honor(game.current_state(), "Danes"), 1);
}

#[test]
fn undo_returns_to_the_start() {
    let mut game = fixed_game();
    let first =
        build(game.current_state(), "Kyle", "Brandon", PowerType::Red, &[], PowerType::Blue, &[]);
    game.apply_attack(first);
    let second =
        build(game.current_state(), "Luna", "Rosie", PowerType::Blue, &[], PowerType::Green, &[]);
    game.apply_attack(second);
    let state = game.current_state();
    assert_eq!(strengths(state, "Kyle"), (3, 0, 2));
    assert_eq!(strengths(state, "Rosie"), (5, 0, 5));
    assert_eq!(honor(state, "Danes"), 1);
    assert_eq!(honor(state, "Geats"), 5);
    assert_eq!(game.history().recorded(), 2);

    assert_eq!(game.undo_last_attack(), Ok(()));
    let state = game.current_state();
    assert_eq!(strengths(state, "Kyle"), (3, 0, 2));
    assert_eq!(strengths(state, "Rosie"), (5, 5, 5));
    assert_eq!(honor(state, "Geats"), 0);

    assert_eq!(game.undo_last_attack(), Ok(()));
    let state = game.current_state();
    for (name, held) in [("Kyle", (3, 1, 2)), ("Rosie", (5, 5, 5)), ("Brandon", (5, 3, 1))] {
        assert_eq!(strengths(state, name), held);
    }
    assert_eq!(honor(state, "Danes"), 0);
    assert!(game.history().at_start());

    assert_eq!(game.undo_last_attack(), Err(HistoryNavigationErr::UndoFromInitialState));
    assert_eq!(game.undo_last_attack(), Err(HistoryNavigationErr::UndoFromInitialState));
    assert_eq!(strengths(game.current_state(), "Kyle"), (3, 1, 2));
    // What was recorded stays recorded.
    assert_eq!(game.history().recorded(), 2);
}

#[test]
fn a_new_history_cannot_step_back() {
    let game = fixed_game();
    let mut history = GameHistory::starting_with(game.current_state().clone());
    assert!(history.at_start());
    assert_eq!(history.recorded(), 0);
    assert_eq!(history.undo_last_attack(), Err(HistoryNavigationErr::UndoFromInitialState));
    assert_eq!(strengths(history.current_state(), "Luna"), (4, 4, 4));
}

#[test]
fn a_step_after_a_step_back_starts_where_the_game_stands() {
    let mut game = fixed_game();
    let first =
        build(game.current_state(), "Kyle", "Brandon", PowerType::Red, &[], PowerType::Blue, &[]);
    game.apply_attack(first);
    game.undo_last_attack().unwrap();
    let second =
        build(game.current_state(), "Luna", "Rosie", PowerType::Blue, &[], PowerType::Green, &[]);
    let preview = game.preview(second);
    assert_eq!(strengths(preview.new_state(), "Rosie"), (5, 0, 5));
    // A preview leaves the game as it is.
    assert_eq!(strengths(game.current_state(), "Rosie"), (5, 5, 5));
    game.apply_attack_outcome(preview);
    let state = game.current_state();
    // The first attack is not part of this line of the game.
    assert_eq!(strengths(state, "Kyle"), (3, 1, 2));
    assert_eq!(strengths(state, "Rosie"), (5, 0, 5));
    assert_eq!(honor(state, "Danes"), 0);
    assert_eq!(game.history().recorded(), 2);
    game.undo_last_attack().unwrap();
    assert!(game.history().at_start());
    assert_eq!(game.undo_last_attack(), Err(HistoryNavigationErr::UndoFromInitialState));
}

#[test]
fn players_are_found_with_their_teams() {
    let game = fixed_game();
    let (kyle, geats) = game.player_by_name("Kyle").unwrap();
    assert_eq!(kyle.as_str(), "Kyle");
    assert!(kyle.is_named("Kyle"));
    assert!(!kyle.is_named("Laura"));
    assert_eq!(geats.0, "Geats");
    let (rosie, danes) = game.player_by_name("Rosie").unwrap();
    assert!(rosie != kyle);
    assert!(rosie == rosie.clone());
    assert_eq!(danes, TName("Danes".to_string()));
    assert!(game.player_by_name("Nobody").is_none());
    let state = game.current_state();
    assert_eq!(state.find_slot(&rosie), Some(Slot { team: 1, place: 3 }));
    assert_eq!(state.find_slot(&kyle), Some(Slot { team: 0, place: 0 }));
    assert!(state.has_team(&danes));
    assert!(!state.has_team(&TName("Jutes".to_string())));
    assert_eq!(state.team_position(&TName("Jutes".to_string())), None);
    let team = state.team_at(1);
    assert_eq!(team.players().len(), 4);
    assert_eq!(team.players().position(&rosie), Some(3));
    assert_eq!(team.players().position(&kyle), None);
    assert!(team.players().find_player(&kyle).is_none());
    assert_eq!(team.players().find_player(&rosie).unwrap().strength(PowerType::Red), 5);
    assert_eq!(team.players().players().len(), 4);
    assert_eq!(game.players().len(), 8);
}

#[test]
fn teams_and_players_can_be_changed_in_place() {
    let game = fixed_game();
    let mut state = game.current_state().clone();
    let danes = TName("Danes".to_string());
    state.team_mut(&danes).gain_honor(7);
    state.gain_honor(&danes, 3);
    assert_eq!(honor(&state, "Danes"), 10);
    assert_eq!(honor(&state, "Geats"), 0);
    let (luna, _) = state.player_by_name("Luna").unwrap();
    state.player_mut(&luna).lose_power(PowerType::Blue);
    state.player_mut(&luna).lose_power(PowerType::Blue);
    assert_eq!(strengths(&state, "Luna"), (4, 0, 4));
    state.lose_power_at(Slot { team: 0, place: 0 }, PowerType::Green);
    assert_eq!(strengths(&state, "Kyle"), (3, 1, 0));
    state.lose_power_all(
        &vec![Slot { team: 1, place: 0 }, Slot { team: 1, place: 2 }],
        PowerType::Red,
    );
    assert_eq!(strengths(&state, "Brandon"), (0, 3, 1));
    assert_eq!(strengths(&state, "Lauren"), (1, 1, 1));
    assert_eq!(strengths(&state, "Annabelle"), (0, 3, 4));
    // The game that the state was copied from is as it was.
    assert_eq!(strengths(game.current_state(), "Luna"), (4, 4, 4));
    assert_eq!(honor(game.current_state(), "Danes"), 0);
}

#[test]
fn roles_are_told_in_words() {
    let game = fixed_game();
    for player in game.players() {
        assert_eq!(
            player.format_role(),
            "Few know their own destiny; you have yet to discover yours."
        );
    }
}

#[test]
fn a_history_records_outcomes() {
    let game = fixed_game();
    let state = game.current_state();
    let mut history = GameHistory::starting_with(state.clone());
    let attack = build(state, "Kyle", "Brandon", PowerType::Red, &[], PowerType::Blue, &[]);
    let mut outcome = attack.outcome(history.current_state());
    assert_eq!(outcome.attack().attack_power(), PowerType::Blue);
    outcome.new_state_mut().gain_honor(&TName("Geats".to_string()), 2);
    history.apply_attack(outcome);
    assert_eq!(history.recorded(), 1);
    assert!(!history.at_start());
    assert_eq!(honor(history.current_state(), "Danes"), 1);
    assert_eq!(honor(history.current_state(), "Geats"), 2);
    // The current state can be changed in place, and only that state.
    history.current_mut().gain_honor(&TName("Danes".to_string()), 10);
    assert_eq!(honor(history.current_state(), "Danes"), 11);
    assert_eq!(history.undo_last_attack(), Ok(()));
    assert_eq!(honor(history.current_state(), "Danes"), 0);
    assert_eq!(strengths(history.current_state(), "Kyle"), (3, 1, 2));
    history.current_mut().gain_honor(&TName("Danes".to_string()), 4);
    assert_eq!(honor(history.current_state(), "Danes"), 4);
    assert_eq!(honor(state, "Danes"), 0);
}

#[test]
fn an_attack_names_its_combatants() {
    let game = fixed_game();
    let state = game.current_state();
    let defence = DeclaredAttack::declare(state, "Luna", "Lauren", PowerType::Green)
        .unwrap()
        .add_or_panic("Annabelle")
        .add_or_panic("Rosie");
    assert_eq!(defence.attack.attacker().as_str(), "Luna");
    assert_eq!(defence.attack.attacker_team().0, "Geats");
    assert_eq!(defence.attack.defender().as_str(), "Lauren");
    assert_eq!(defence.attack.defender_team().0, "Danes");
    assert_eq!(defence.attack.defense_power(), PowerType::Green);
    assert_eq!(defence.attack.defender_assists().len(), 2);
    assert!(defence.attack.attacker_assists().is_empty());
    assert_eq!(honor(defence.attack.state(), "Geats"), 0);
    let offence = defence.finalize_defense_with(PowerType::Red).add_or_panic("Kyle");
    assert_eq!(offence.attack_power(), PowerType::Red);
    let attack = offence.finalize_offense();
    assert!(*attack.attacker() == "Luna");
    assert_eq!(attack.attacker_team().0, "Geats");
    let assists: Vec<&str> = attack.attacker_assists().iter().map(|name| name.as_str()).collect();
    assert_eq!(assists, vec!["Kyle"]);
    assert!(*attack.defender() == "Lauren");
    assert_eq!(attack.defender_team().0, "Danes");
    let assists: Vec<&str> = attack.defender_assists().iter().map(|name| name.as_str()).collect();
    assert_eq!(assists, vec!["Annabelle", "Rosie"]);
    assert_eq!(attack.attack_power(), PowerType::Red);
    assert_eq!(attack.defense_power(), PowerType::Green);
}

#[test]
fn a_declaration_can_be_closed_by_hand() {
    let game = fixed_game();
    let state = game.current_state();
    let stage = DeclaredAttack::declare(state, "Luna", "Rosie", PowerType::Blue).unwrap();
    let attack = stage.attack.finalize(PowerType::Green);
    assert_eq!(attack.attack_power(), PowerType::Green);
    let after = attack.outcome(state).new_state;
    assert_eq!(strengths(&after, "Rosie"), (5, 0, 5));
}

#[test]
fn a_game_has_one_prophet_and_one_traitor() {
    for _ in 0..30 {
        let mut setup = Setup::new_game();
        setup.add_team("Geats").unwrap();
        setup.add_team("Danes").unwrap();
        for name in ["Kyle", "Laura", "Brandon", "Suzie", "Lauren", "Annabelle", "Luna"] {
            setup.add_player(name).unwrap();
        }
        setup.player_without_role("Annabelle").unwrap();
        setup.player_without_role("Luna").unwrap();
        assert_eq!(setup.without_role(), names(&["Annabelle", "Luna"]));
        let game = setup.finalize().unwrap();
        let told: Vec<(String, String)> = game
            .players()
            .iter()
            .map(|player| (player.name().as_str().to_string(), player.format_role()))
            .collect();
        let prophets: Vec<&(String, String)> =
            told.iter().filter(|(_, role)| role.starts_with("Prophet: protect ")).collect();
        let traitors = told.iter().filter(|(_, role)| role.starts_with("Traitor")).count();
        assert_eq!(prophets.len(), 1);
        assert_eq!(traitors, 1);
        let (prophet, role) = prophets[0];
        let protected = role
            .strip_prefix("Prophet: protect ")
            .and_then(|rest| rest.strip_suffix(" at all costs"))
            .unwrap();
        // The one protected is a player with a part in the story, and not the prophet.
        assert!(["Kyle", "Laura", "Brandon", "Suzie", "Lauren"].contains(&protected));
        assert_ne!(protected, prophet);
        for (name, role) in &told {
            if name == "Annabelle" || name == "Luna" || name == protected {
                assert_eq!(role, "Few know their own destiny; you have yet to discover yours.");
            }
        }
    }
}

#[test]
fn a_game_starts_whoever_is_exempt() {
    let all = ["Kyle", "Laura", "Suzie", "Luna", "Brandon", "Rosie"];
    for exempt in 0..=all.len() {
        for _ in 0..10 {
            let mut setup = Setup::new_game();
            setup.add_team("Geats").unwrap();
            setup.add_team("Danes").unwrap();
            for name in all {
                setup.add_player(name).unwrap();
            }
            for name in &all[..exempt] {
                setup.player_without_role(name).unwrap();
            }
            let mut game = setup.finalize().unwrap();
            assert!(matches!(
                game.undo_last_attack(),
                Err(HistoryNavigationErr::UndoFromInitialState)
            ));
            let state = game.current_state();
            assert_eq!(state.team_count(), 2);
            assert_eq!(honor(state, "Geats"), 0);
            assert_eq!(honor(state, "Danes"), 0);
            let mut dealt: Vec<String> = state
                .players()
                .iter()
                .map(|player| player.name().as_str().to_string())
                .collect();
            dealt.sort();
            let mut expected = names(&all);
            expected.sort();
            assert_eq!(dealt, expected);
            let mut with_word = 0;
            for player in state.players() {
                for colour in ALL {
                    assert!((1..=5).contains(&player.strength(colour)));
                }
                let told = player.format_role();
                if told != "Few know their own destiny; you have yet to discover yours." {
                    assert!(!all[..exempt].contains(&player.name().as_str()));
                    with_word += 1;
                }
            }
            // The prophet and the traitor are told; the destined one is not.
            let open = all.len() - exempt;
            assert_eq!(with_word, open.saturating_sub(1).min(2));
        }
    }
}

#[test]
fn all_players_can_be_changed_in_place() {
    let game = fixed_game();
    let mut state = game.current_state().clone();
    {
        let all = state.players_mut();
        let order: Vec<String> =
            all.iter().map(|player| player.name().as_str().to_string()).collect();
        assert_eq!(
            order,
            names(&["Kyle", "Laura", "Suzie", "Luna", "Brandon", "Lauren", "Annabelle", "Rosie"])
        );
        for player in all {
            player.lose_power(PowerType::Red);
        }
    }
    assert_eq!(strengths(&state, "Kyle"), (0, 1, 2));
    assert_eq!(strengths(&state, "Luna"), (0, 4, 4));
    assert_eq!(strengths(&state, "Brandon"), (0, 3, 1));
    assert_eq!(strengths(&state, "Rosie"), (0, 5, 5));
    assert_eq!(roster(&state, 0), names(&["Kyle", "Laura", "Suzie", "Luna"]));
    assert_eq!(roster(&state, 1), names(&["Brandon", "Lauren", "Annabelle", "Rosie"]));
    assert_eq!(honor(&state, "Geats"), 0);
    // The game that the state was copied from is as it was.
    assert_eq!(strengths(game.current_state(), "Kyle"), (3, 1, 2));
}

#[test]
fn all_players_of_a_game_can_be_changed_in_place() {
    let mut game = fixed_game();
    let attack = build(
        game.current_state(),
        "Kyle",
        "Brandon",
        PowerType::Red,
        &[],
        PowerType::Red,
        &[],
    );
    assert!(attack.can_resolve(game.current_state()));
    game.apply_attack(attack);
    for player in game.players_mut() {
        player.lose_power(PowerType::Blue);
    }
    // Only the state that the game is in has changed.
    assert_eq!(strengths(game.current_state(), "Luna"), (4, 0, 4));
    assert_eq!(strengths(game.current_state(), "Rosie"), (5, 0, 5));
    assert_eq!(strengths(game.current_state(), "Kyle"), (0, 0, 2));
    game.undo_last_attack().unwrap();
    assert_eq!(strengths(game.current_state(), "Luna"), (4, 4, 4));
    assert_eq!(strengths(game.current_state(), "Kyle"), (3, 1, 2));
}
