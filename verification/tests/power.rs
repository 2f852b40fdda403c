use ultlib::gamestate::power::{ColorPower, InvalidColorType, Power, PowerRange, PowerType};

const ALL: [PowerType; 3] = [PowerType::Red, PowerType::Blue, PowerType::Green];

#[test]
fn power_advantage() {
    assert!(PowerType::Red.relative_advantage(PowerType::Red) == 0);
    assert!(PowerType::Red.relative_advantage(PowerType::Green) == 2);
    assert!(PowerType::Red.relative_advantage(PowerType::Blue) == -2);
    assert!(PowerType::Green.relative_advantage(PowerType::Red) == -2);
    assert!(PowerType::Green.relative_advantage(PowerType::Green) == 0);
    assert!(PowerType::Green.relative_advantage(PowerType::Blue) == 2);
    assert!(PowerType::Blue.relative_advantage(PowerType::Red) == 2);
    assert!(PowerType::Blue.relative_advantage(PowerType::Green) == -2);
    assert!(PowerType::Blue.relative_advantage(PowerType::Blue) == 0);
}

#[test]
fn advantage_is_antisymmetric() {
    for a in ALL {
        assert_eq!(a.relative_advantage(a), 0);
        for b in ALL {
            assert_eq!(a.relative_advantage(b), -b.relative_advantage(a));
            if a != b {
                assert_eq!(a.relative_advantage(b).abs(), 2);
            }
        }
    }
}

#[test]
fn each_colour_beats_one_and_loses_to_one() {
    for a in ALL {
        let gains = ALL.iter().filter(|b| a.relative_advantage(**b) == 2).count();
        let losses = ALL.iter().filter(|b| a.relative_advantage(**b) == -2).count();
        assert_eq!((gains, losses), (1, 1));
    }
}

#[test]
fn colours_are_named_in_lower_case() {
    assert_eq!(PowerType::named("red"), Some(PowerType::Red));
    assert_eq!(PowerType::named("green"), Some(PowerType::Green));
    assert_eq!(PowerType::named("blue"), Some(PowerType::Blue));
    assert_eq!(PowerType::named("Red"), None);
    assert_eq!(PowerType::named(" red"), None);
    assert_eq!(PowerType::named("re"), None);
    assert_eq!(PowerType::named(""), None);
}

#[test]
fn input_is_trimmed_and_put_in_lower_case() {
    assert_eq!(PowerType::parse("red"), Ok(PowerType::Red));
    assert_eq!(PowerType::parse("  ReD \n"), Ok(PowerType::Red));
    assert_eq!(PowerType::parse("GREEN"), Ok(PowerType::Green));
    assert_eq!(PowerType::parse("\tBlue"), Ok(PowerType::Blue));
    assert_eq!(PowerType::parse("blue\r\n"), Ok(PowerType::Blue));
}

#[test]
fn other_input_names_no_colour() {
    assert_eq!(PowerType::parse("purple"), Err(InvalidColorType));
    assert_eq!(PowerType::parse(""), Err(InvalidColorType));
    assert_eq!(PowerType::parse("re d"), Err(InvalidColorType));
    assert_eq!(PowerType::parse("red green"), Err(InvalidColorType));
}

#[test]
fn a_colour_is_spent_once() {
    let mut held = ColorPower::holding(4);
    assert!(held.nonempty());
    assert_eq!(i8::from(held), 4);
    held.discard();
    assert!(!held.nonempty());
    assert_eq!(i8::from(held), 0);
    held.discard();
    assert!(!held.nonempty());
    assert_eq!(i8::from(held), 0);
    assert!(ColorPower::holding(0).nonempty());
}

#[test]
fn holdings_are_read_by_colour() {
    let mut power = Power::with_magnitudes(1, 2, 3);
    assert_eq!(i8::from(power[PowerType::Red]), 1);
    assert_eq!(i8::from(power[PowerType::Blue]), 2);
    assert_eq!(i8::from(power[PowerType::Green]), 3);
    power[PowerType::Blue].discard();
    assert!(power[PowerType::Red].nonempty());
    assert!(!power[PowerType::Blue].nonempty());
    assert!(power[PowerType::Green].nonempty());
    assert_eq!(i8::from(power[PowerType::Blue]), 0);
}

#[test]
fn holdings_are_thrown_within_the_range() {
    let die = PowerRange::die();
    assert_eq!((die.low, die.high), (1, 6));
    let mut seen = [false; 7];
    for _ in 0..400 {
        let power = Power::randomize(die);
        for colour in ALL {
            assert!(power[colour].nonempty());
            let magnitude = i8::from(power[colour]);
            assert!((1..=5).contains(&magnitude));
            seen[magnitude as usize] = true;
        }
    }
    assert_eq!(seen, [false, true, true, true, true, true, false]);
}

#[test]
fn a_range_of_one_leaves_no_choice() {
    for _ in 0..20 {
        let power = Power::randomize(PowerRange { low: 3, high: 4 });
        for colour in ALL {
            assert_eq!(i8::from(power[colour]), 3);
        }
    }
}

#[test]
fn white_space_of_every_kind_is_trimmed() {
    let white: Vec<u32> = (0x09..=0x0d)
        .chain([0x20, 0x85, 0xa0, 0x1680])
        .chain(0x2000..=0x200a)
        .chain([0x2028, 0x2029, 0x202f, 0x205f, 0x3000])
        .collect();
    assert_eq!(white.len(), 25);
    for code in 0..=0x10ffff_u32 {
        if let Some(c) = char::from_u32(code) {
            let around = PowerType::parse(&format!("{c}blue{c}{c}"));
            let before = PowerType::parse(&format!("{c}blue"));
            let after = PowerType::parse(&format!("blue{c}"));
            if white.contains(&code) {
                assert_eq!(around, Ok(PowerType::Blue), "{:x}", code);
                assert_eq!(before, Ok(PowerType::Blue), "{:x}", code);
                assert_eq!(after, Ok(PowerType::Blue), "{:x}", code);
            } else {
                assert_eq!(around, Err(InvalidColorType), "{:x}", code);
                assert_eq!(before, Err(InvalidColorType), "{:x}", code);
                assert_eq!(after, Err(InvalidColorType), "{:x}", code);
            }
        }
    }
    // White space inside the word stays.
    assert_eq!(PowerType::parse(" bl ue "), Err(InvalidColorType));
    assert_eq!(PowerType::parse(" \u{3000}\t"), Err(InvalidColorType));
}
