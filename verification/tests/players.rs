use ultlib::gamestate::builder::{GameSetupErr, PlayerAttributeProvider};
use ultlib::gamestate::name_set::{order_of, NameOrder, NameSet};
use ultlib::gamestate::players::{Player, PlayerAttributePool, PlayersByName, Role};
use ultlib::gamestate::power::{Power, PowerType};
use ultlib::gamestate::teams::{TName, TeamsByName};

const ALL: [PowerType; 3] = [PowerType::Red, PowerType::Blue, PowerType::Green];

fn name_set(names: &[&str]) -> NameSet {
    let mut set = NameSet::default();
    for name in names {
        set.insert(name.to_string());
    }
    set
}

const EIGHT: [&str; 8] =
    ["Kyle", "Laura", "Brandon", "Suzie", "Lauren", "Annabelle", "Luna", "Rosie"];

#[test]
fn a_prophet_is_told_whom_to_protect() {
    let prophet = Player::with_attributes(
        "Kyle".to_string(),
        "Geats",
        Power::with_magnitudes(1, 2, 3),
        Some(Role::Prophet { target: "Laura".to_string() }),
    );
    assert_eq!(prophet.format_role(), "Prophet: protect Laura at all costs");
    assert_eq!(prophet.name().as_str(), "Kyle");
    assert_eq!(prophet.name.as_str(), "Kyle");
    assert_eq!(prophet.team(), "Geats");
    assert_eq!(prophet.team, "Geats");
}

#[test]
fn a_traitor_is_told_so_and_the_destined_is_not() {
    let power = Power::with_magnitudes(1, 2, 3);
    let traitor =
        Player::with_attributes("Kyle".to_string(), "Geats", power, Some(Role::Traitor));
    assert_eq!(traitor.format_role(), "Traitor: try not to let the destined one survive");
    let destined =
        Player::with_attributes("Kyle".to_string(), "Geats", power, Some(Role::Destined));
    assert_eq!(
        destined.format_role(),
        "Few know their own destiny; you have yet to discover yours."
    );
    let nobody = Player::with_attributes("Kyle".to_string(), "Geats", power, None);
    assert_eq!(
        nobody.format_role(),
        "Few know their own destiny; you have yet to discover yours."
    );
}

#[test]
fn a_player_loses_one_colour_at_a_time() {
    let mut player = Player::with_attributes(
        "Kyle".to_string(),
        "Geats",
        Power::with_magnitudes(3, 0, 5),
        Some(Role::Traitor),
    );
    assert_eq!(player.strength(PowerType::Red), 3);
    assert_eq!(player.strength(PowerType::Blue), 0);
    assert!(player.has_power(PowerType::Blue));
    assert_eq!(player.powers_remaining(), ALL.to_vec());
    player.lose_power(PowerType::Blue);
    assert!(!player.has_power(PowerType::Blue));
    assert_eq!(player.strength(PowerType::Blue), 0);
    assert_eq!(player.powers_remaining(), vec![PowerType::Red, PowerType::Green]);
    player.lose_power(PowerType::Blue);
    player.lose_power(PowerType::Red);
    assert_eq!(player.strength(PowerType::Red), 0);
    assert_eq!(player.strength(PowerType::Green), 5);
    assert!(!player.is_dead());
    player.lose_power(PowerType::Green);
    assert!(player.is_dead());
    // The rest of the record is as it was.
    assert_eq!(player.name().as_str(), "Kyle");
    assert_eq!(player.format_role(), "Traitor: try not to let the destined one survive");
    let copy = player.clone();
    assert!(copy.is_dead());
    assert_eq!(copy.team(), "Geats");
}

#[test]
fn the_provider_gives_every_role_once() {
    for _ in 0..50 {
        let players = name_set(&EIGHT);
        let mut provider = PlayerAttributeProvider::new(&players, name_set(&["Annabelle"]));
        assert!(!provider.is_empty());
        let mut destined: Vec<String> = Vec::new();
        let mut protected: Vec<String> = Vec::new();
        let mut traitors = 0;
        for name in EIGHT {
            let role = provider.next_role(name);
            let power = provider.next_power();
            for colour in ALL {
                assert!((1..=5).contains(&i8::from(power[colour])));
            }
            match role {
                Some(Role::Destined) => destined.push(name.to_string()),
                Some(Role::Prophet { target }) => protected.push(target),
                Some(Role::Traitor) => traitors += 1,
                None => {}
            }
            if name == "Annabelle" {
                assert!(destined.iter().all(|name| name != "Annabelle"));
            }
        }
        assert_eq!(destined.len(), 1);
        assert_eq!(protected, destined);
        assert_eq!(traitors, 1);
        assert!(provider.is_empty());
    }
}

#[test]
fn roles_go_by_the_draws() {
    let players = name_set(&EIGHT);
    let mut provider =
        PlayerAttributeProvider::new(&players, name_set(&["Annabelle", "Rosie"]));
    assert!(!provider.is_open("Annabelle"));
    assert!(!provider.is_open("Rosie"));
    let open: Vec<&str> = EIGHT.iter().copied().filter(|name| provider.is_open(name)).collect();
    // Six are open to a role, and one of them is destined.
    assert_eq!(open.len(), 5);
    let destined: Vec<&str> = EIGHT
        .iter()
        .copied()
        .filter(|name| !provider.is_open(name) && *name != "Annabelle" && *name != "Rosie")
        .collect();
    assert_eq!(destined.len(), 1);

    assert!(provider.next_role_given("Annabelle", 0, 0).is_none());
    assert!(matches!(provider.next_role_given(destined[0], 0, 0), Some(Role::Destined)));
    // A draw of two or more, with two roles left, gives none.
    assert!(provider.next_role_given(open[0], 2, 0).is_none());
    assert!(provider.next_role_given(open[1], 3, 1).is_none());
    // A draw below the number of roles gives the role picked.
    assert!(matches!(provider.next_role_given(open[2], 1, 1), Some(Role::Traitor)));
    // One role is left: a draw of one gives none, a draw of nought gives it.
    assert!(provider.next_role_given(open[3], 1, 0).is_none());
    match provider.next_role_given(open[4], 0, 0) {
        Some(Role::Prophet { target }) => assert_eq!(target, destined[0]),
        other => panic!("the prophet is left, not {:?}", other),
    }
    assert!(provider.next_role_given("Rosie", 0, 0).is_none());
    assert!(!provider.is_empty());
    for _ in 0..8 {
        provider.next_power();
    }
    assert!(provider.is_empty());
}

#[test]
fn names_stand_in_the_order_of_their_bytes() {
    let mut set = NameSet::default();
    assert!(set.insert("Geats".to_string()));
    assert!(set.insert("Danes".to_string()));
    assert!(set.insert("danes".to_string()));
    assert!(set.insert("Dane".to_string()));
    assert!(set.insert("Éowyn".to_string()));
    assert!(!set.insert("Danes".to_string()));
    assert_eq!(set.len(), 5);
    assert_eq!(set.to_vec(), vec!["Dane", "Danes", "Geats", "danes", "Éowyn"]);
    assert_eq!(set.at(0), "Dane");
    assert!(set.contains("danes"));
    assert!(!set.contains("Jutes"));
    assert!(!set.contains(""));
    let mut sorted = set.to_vec();
    sorted.sort();
    assert_eq!(sorted, set.to_vec());
}

#[test]
fn two_names_stand_one_way() {
    assert_eq!(order_of("a", "b"), NameOrder::Before);
    assert_eq!(order_of("b", "a"), NameOrder::After);
    assert_eq!(order_of("a", "a"), NameOrder::Same);
    assert_eq!(order_of("", ""), NameOrder::Same);
    assert_eq!(order_of("", "a"), NameOrder::Before);
    assert_eq!(order_of("ab", "a"), NameOrder::After);
    assert_eq!(order_of("Z", "a"), NameOrder::Before);
    assert_eq!(order_of("z", "é"), NameOrder::Before);
}

/// A pool with holdings of one kind for as many players as needed.
struct Same(usize);

impl PlayerAttributePool for Same {
    fn next_power(&mut self) -> Power {
        self.0 -= 1;
        Power::with_magnitudes(2, 2, 2)
    }

    fn next_role(&mut self, name: &str) -> Option<Role> {
        if name == "Kyle" {
            Some(Role::Traitor)
        } else {
            None
        }
    }

    fn is_empty(&self) -> bool {
        self.0 == 0
    }
}

#[test]
fn a_team_is_made_of_names() {
    let mut pool = Same(3);
    let names = vec!["Kyle".to_string(), "Laura".to_string(), "Luna".to_string()];
    let mut team = PlayersByName::from("Geats", names, &mut pool);
    assert!(pool.is_empty());
    assert_eq!(team.len(), 3);
    assert_eq!(team.at(1).name().as_str(), "Laura");
    assert_eq!(team.at(1).team(), "Geats");
    assert_eq!(team.at(0).format_role(), "Traitor: try not to let the destined one survive");
    let laura = team.at(1).name().clone();
    team.find_mut(&laura).unwrap().lose_power(PowerType::Red);
    team.lose_power_at(2, PowerType::Green);
    assert!(!team.find_player(&laura).unwrap().has_power(PowerType::Red));
    assert!(team.at(0).has_power(PowerType::Red));
    assert!(!team.at(2).has_power(PowerType::Green));
    let copy = team.clone();
    assert_eq!(copy.len(), 3);
    assert!(!copy.at(1).has_power(PowerType::Red));
    assert_eq!(PlayersByName::default().len(), 0);

    let mut pool = Same(1);
    let player = Player::new("Kyle".to_string(), "Danes", &mut pool);
    assert_eq!(player.team(), "Danes");
    assert_eq!(player.strength(PowerType::Blue), 2);
}

#[test]
fn teams_are_added_to_a_ledger() {
    let mut pool = Same(4);
    let mut ledger = TeamsByName::default();
    assert_eq!(ledger.team_count(), 0);
    ledger
        .add(
            "Geats",
            PlayersByName::from("Geats", vec!["Kyle".to_string(), "Laura".to_string()], &mut pool),
        )
        .unwrap();
    ledger
        .add(
            "Danes",
            PlayersByName::from("Danes", vec!["Rosie".to_string(), "Luna".to_string()], &mut pool),
        )
        .unwrap();
    assert_eq!(ledger.team_count(), 2);
    assert_eq!(ledger.team_name(1), &TName("Danes".to_string()));
    assert_eq!(ledger.team_at(1).honor(), 0);
    let (luna, team) = ledger.player_by_name("Luna").unwrap();
    assert_eq!(team.0, "Danes");
    assert_eq!(ledger.player_data(&luna).team(), "Danes");
    assert_eq!(ledger.players().len(), 4);
    assert!(ledger.player_by_name("luna").is_none());
}

#[test]
fn a_team_name_is_taken_once() {
    let mut pool = Same(3);
    let mut ledger = TeamsByName::default();
    let first = ledger.add(
        "Geats",
        PlayersByName::from("Geats", vec!["Kyle".to_string(), "Laura".to_string()], &mut pool),
    );
    assert_eq!(first, Ok(()));
    ledger.gain_honor(&TName("Geats".to_string()), 4);
    let again = ledger.add(
        "Geats",
        PlayersByName::from("Geats", vec!["Rosie".to_string()], &mut pool),
    );
    assert_eq!(again, Err(GameSetupErr::TeamNameDuplicated));
    // The team that was there is as it was, and no second one has come.
    assert_eq!(ledger.team_count(), 1);
    assert_eq!(ledger.team_size(0), 2);
    assert_eq!(ledger.team_at(0).honor(), 4);
    assert!(ledger.player_by_name("Rosie").is_none());
    assert!(ledger.player_by_name("Kyle").is_some());
}

fn three_holdings() -> Vec<Power> {
    vec![
        Power::with_magnitudes(1, 2, 3),
        Power::with_magnitudes(4, 5, 1),
        Power::with_magnitudes(2, 2, 2),
    ]
}

#[test]
fn a_provider_is_made_of_given_draws() {
    let players = name_set(&["Kyle", "Laura", "Rosie"]);
    let mut provider = PlayerAttributeProvider::with_draws(
        &players,
        name_set(&[]),
        three_holdings(),
        Some("Laura".to_string()),
    );
    assert!(!provider.is_empty());
    assert!(!provider.is_open("Laura"));
    assert!(provider.is_open("Kyle"));
    assert!(provider.is_open("Rosie"));
    // The holdings are handed out from the last to the first.
    let first = provider.next_power();
    assert_eq!(ALL.map(|colour| i8::from(first[colour])), [2, 2, 2]);
    let second = provider.next_power();
    assert_eq!(ALL.map(|colour| i8::from(second[colour])), [4, 5, 1]);
    let third = provider.next_power();
    assert_eq!(ALL.map(|colour| i8::from(third[colour])), [1, 2, 3]);
    assert!(matches!(provider.next_role_given("Laura", 0, 0), Some(Role::Destined)));
    // Two players are undecided and two roles are left: each gets one.
    match provider.next_role_given("Kyle", 1, 0) {
        Some(Role::Prophet { target }) => assert_eq!(target, "Laura"),
        other => panic!("the prophet comes first, not {:?}", other),
    }
    assert!(!provider.is_empty());
    assert!(matches!(provider.next_role_given("Rosie", 0, 0), Some(Role::Traitor)));
    assert!(provider.is_empty());
}

#[test]
fn roles_are_no_more_than_the_players_open_to_one() {
    let players = name_set(&["Kyle", "Laura", "Rosie"]);
    // One player is open besides the destined one: the prophet.
    let mut provider = PlayerAttributeProvider::with_draws(
        &players,
        name_set(&["Rosie"]),
        three_holdings(),
        Some("Kyle".to_string()),
    );
    assert!(provider.next_role("Rosie").is_none());
    assert!(matches!(provider.next_role("Kyle"), Some(Role::Destined)));
    match provider.next_role("Laura") {
        Some(Role::Prophet { target }) => assert_eq!(target, "Kyle"),
        other => panic!("the prophet is left, not {:?}", other),
    }
    for _ in 0..3 {
        provider.next_power();
    }
    assert!(provider.is_empty());

    // Only the destined player is open: nobody else has a role.
    let mut provider = PlayerAttributeProvider::with_draws(
        &players,
        name_set(&["Laura", "Rosie"]),
        three_holdings(),
        Some("Kyle".to_string()),
    );
    assert!(matches!(provider.next_role("Kyle"), Some(Role::Destined)));
    assert!(provider.next_role("Laura").is_none());
    assert!(provider.next_role("Rosie").is_none());
    for _ in 0..3 {
        provider.next_power();
    }
    assert!(provider.is_empty());

    // Nobody is open: nobody is destined.
    let mut provider = PlayerAttributeProvider::with_draws(
        &players,
        name_set(&["Kyle", "Laura", "Rosie"]),
        three_holdings(),
        None,
    );
    for name in ["Kyle", "Laura", "Rosie"] {
        assert!(!provider.is_open(name));
        assert!(provider.next_role(name).is_none());
        provider.next_power();
    }
    assert!(provider.is_empty());
}

#[test]
fn a_provider_is_made_whoever_is_exempt() {
    let all = ["Kyle", "Laura", "Rosie", "Luna"];
    for exempt in 0..=all.len() {
        for _ in 0..20 {
            let players = name_set(&all);
            let mut provider = PlayerAttributeProvider::new(&players, name_set(&all[..exempt]));
            let mut destined = 0;
            let mut others = 0;
            for (place, name) in all.iter().enumerate() {
                let power = provider.next_power();
                for colour in ALL {
                    assert!((1..=5).contains(&i8::from(power[colour])));
                }
                match provider.next_role(name) {
                    Some(Role::Destined) => {
                        assert!(place >= exempt);
                        destined += 1;
                    }
                    Some(_) => {
                        assert!(place >= exempt);
                        others += 1;
                    }
                    None => {}
                }
            }
            let open = all.len() - exempt;
            assert_eq!(destined, open.min(1));
            assert_eq!(others, open.saturating_sub(1).min(2));
            assert!(provider.is_empty());
        }
    }
}

#[test]
fn all_players_of_a_team_can_be_changed_in_place() {
    let mut pool = Same(3);
    let names = vec!["Kyle".to_string(), "Laura".to_string(), "Luna".to_string()];
    let mut team = PlayersByName::from("Geats", names, &mut pool);
    {
        let all = team.players_mut();
        assert_eq!(all.len(), 3);
        assert_eq!(all[0].name().as_str(), "Kyle");
        assert_eq!(all[2].name().as_str(), "Luna");
        for (place, player) in all.into_iter().enumerate() {
            if place != 1 {
                player.lose_power(PowerType::Green);
            }
        }
    }
    assert!(!team.at(0).has_power(PowerType::Green));
    assert!(team.at(1).has_power(PowerType::Green));
    assert!(!team.at(2).has_power(PowerType::Green));
    assert!(team.at(0).has_power(PowerType::Red));
    assert_eq!(team.len(), 3);
}
