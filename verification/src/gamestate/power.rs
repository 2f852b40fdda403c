//! Power: the three colours, their cyclic dominance, and a player's holdings.

use crate::random::sample_magnitude;
use crate::text::{lowercased, to_lowercase, trim, trimmed};
use std::ops::{Index, IndexMut};
use vstd::prelude::*;

verus! {

/// A colour of power. Red beats Green, Green beats Blue, Blue beats Red.
#[derive(Copy, Clone, Debug, PartialEq, Eq, Structural)]
pub enum PowerType {
    Red,
    Blue,
    Green,
}

/// A word that names no colour.
#[derive(Copy, Clone, Debug, PartialEq, Eq, Structural)]
pub struct InvalidColorType;

/// The colour that the word `word` names, if it names one.
pub open spec fn colour_named(word: Seq<char>) -> Option<PowerType> {
    if word == "red"@ {
        Some(PowerType::Red)
    } else if word == "green"@ {
        Some(PowerType::Green)
    } else if word == "blue"@ {
        Some(PowerType::Blue)
    } else {
        None
    }
}

/// What one step of dominance is worth in a combat.
pub const POWER_ADVANTAGE_MULTIPLYER: i16 = 2;

impl PowerType {
    /// The position of the colour in the cycle.
    pub open spec fn spec_index(self) -> int {
        match self {
            PowerType::Red => 0,
            PowerType::Blue => 1,
            PowerType::Green => 2,
        }
    }

    /// Whether `self` dominates `other`.
    pub open spec fn beats(self, other: PowerType) -> bool {
        ||| (self == PowerType::Red && other == PowerType::Green)
        ||| (self == PowerType::Green && other == PowerType::Blue)
        ||| (self == PowerType::Blue && other == PowerType::Red)
    }

    /// `1` where `self` beats `against`, `-1` where it is beaten, `0` against itself.
    pub open spec fn spec_unit_advantage(self, against: PowerType) -> int {
        if self == against {
            0
        } else if self.beats(against) {
            1
        } else {
            -1
        }
    }

    /// The bonus of an attack with `self` on a defence with `against`.
    pub open spec fn spec_relative_advantage(self, against: PowerType) -> int {
        self.spec_unit_advantage(against) * POWER_ADVANTAGE_MULTIPLYER
    }

    /// The colour that `word` names: `red`, `green` or `blue`, written so.
    pub fn named(word: &str) -> (colour: Option<PowerType>)
        ensures
            colour == colour_named(word@),
    {
        let word = word.to_owned();
        if word == "red".to_owned() {
            Some(PowerType::Red)
        } else if word == "green".to_owned() {
            Some(PowerType::Green)
        } else if word == "blue".to_owned() {
            Some(PowerType::Blue)
        } else {
            None
        }
    }

    /// The colour that a line of input names: the line is trimmed and put in
    /// lower case, and must then read `red`, `green` or `blue`.
    pub fn parse(input: &str) -> (colour: Result<PowerType, InvalidColorType>)
        ensures
            colour == match colour_named(lowercased(trimmed(input@))) {
                Some(named) => Ok::<PowerType, InvalidColorType>(named),
                None => Err(InvalidColorType),
            },
    {
        let word = to_lowercase(trim(input));
        match PowerType::named(word.as_str()) {
            Some(colour) => Ok(colour),
            None => Err(InvalidColorType),
        }
    }

    fn index(self) -> (i: i16)
        ensures
            i == self.spec_index(),
    {
        match self {
            PowerType::Red => 0,
            PowerType::Blue => 1,
            PowerType::Green => 2,
        }
    }

    fn unit_advantage(self, against: PowerType) -> (r: i16)
        ensures
            r == self.spec_unit_advantage(against),
    {
        // The difference of the positions, rotated by one and back again; the
        // four keeps the left side of `%` positive.
        (self.index() - against.index() + 4) % 3 - 1
    }

    /// The bonus of an attack with `self` on a defence with `against`. May be negative.
    pub fn relative_advantage(self, against: PowerType) -> (r: i16)
        ensures
            r == self.spec_relative_advantage(against),
    {
        self.unit_advantage(against) * POWER_ADVANTAGE_MULTIPLYER
    }
}

/// The advantage of one colour over another is the difference of their
/// positions in the cycle, taken round the cycle: one step forward is a gain,
/// one step back a loss.
pub proof fn lemma_unit_advantage_by_position(a: PowerType, b: PowerType)
    ensures
        a.spec_unit_advantage(b) == (a.spec_index() - b.spec_index() + 4) % 3 - 1,
{
}

/// A colour has no advantage over itself.
pub proof fn lemma_advantage_over_self(x: PowerType)
    ensures
        x.spec_relative_advantage(x) == 0,
{
}

/// Advantage is antisymmetric: what one colour gains over another, the other
/// loses over it.
pub proof fn lemma_advantage_antisymmetric(a: PowerType, b: PowerType)
    ensures
        a.spec_relative_advantage(b) == -b.spec_relative_advantage(a),
{
}

/// Of two different colours exactly one beats the other: one direction is
/// worth `2`, the reverse `-2`.
pub proof fn lemma_advantage_between_distinct(a: PowerType, b: PowerType)
    requires
        a != b,
    ensures
        a.beats(b) != b.beats(a),
        a.beats(b) ==> a.spec_relative_advantage(b) == 2 && b.spec_relative_advantage(a) == -2,
        b.beats(a) ==> a.spec_relative_advantage(b) == -2 && b.spec_relative_advantage(a) == 2,
{
}

/// The magnitude held in one colour, or nothing once that colour is spent.
#[derive(Copy, Clone, Debug)]
pub struct ColorPower(Option<i8>);

impl View for ColorPower {
    type V = Option<i8>;

    closed spec fn view(&self) -> Option<i8> {
        self.0
    }
}

impl ColorPower {
    /// A held magnitude is never negative.
    pub open spec fn wf(self) -> bool {
        self@ matches Some(m) ==> m >= 0
    }

    /// A colour held with the magnitude `magnitude`.
    pub fn holding(magnitude: i8) -> (cp: ColorPower)
        requires
            magnitude >= 0,
        ensures
            cp@ == Some(magnitude),
            cp.wf(),
    {
        ColorPower(Some(magnitude))
    }

    /// Spends the colour. Spending it twice changes nothing more.
    pub fn discard(&mut self)
        ensures
            final(self)@ is None,
    {
        self.0 = None;
    }

    /// Whether the colour is still held.
    pub fn nonempty(self) -> (b: bool)
        ensures
            b == (self@ is Some),
    {
        self.0.is_some()
    }
}

impl From<ColorPower> for i8 {
    fn from(cp: ColorPower) -> (m: i8) {
        match cp.0 {
            Some(m) => m,
            None => 0,
        }
    }
}

impl vstd::std_specs::convert::FromSpecImpl<ColorPower> for i8 {
    open spec fn obeys_from_spec() -> bool {
        true
    }

    open spec fn from_spec(cp: ColorPower) -> i8 {
        match cp@ {
            Some(m) => m,
            None => 0,
        }
    }
}

/// The model of a [`Power`]: for each colour the magnitude held, or nothing.
pub struct PowerView {
    pub red: Option<i8>,
    pub blue: Option<i8>,
    pub green: Option<i8>,
}

impl PowerView {
    /// What is held in the colour `ptype`.
    pub open spec fn get(self, ptype: PowerType) -> Option<i8> {
        match ptype {
            PowerType::Red => self.red,
            PowerType::Blue => self.blue,
            PowerType::Green => self.green,
        }
    }

    /// The same holdings with `held` in the colour `ptype`.
    pub open spec fn with(self, ptype: PowerType, held: Option<i8>) -> PowerView {
        match ptype {
            PowerType::Red => PowerView { red: held, ..self },
            PowerType::Blue => PowerView { blue: held, ..self },
            PowerType::Green => PowerView { green: held, ..self },
        }
    }

    /// Whether the colour `ptype` is still held.
    pub open spec fn has(self, ptype: PowerType) -> bool {
        self.get(ptype) is Some
    }

    /// The strength in the colour `ptype`: its magnitude, or `0` once spent.
    pub open spec fn strength(self, ptype: PowerType) -> int {
        match self.get(ptype) {
            Some(m) => m as int,
            None => 0,
        }
    }

    /// The same holdings after the colour `ptype` is spent.
    pub open spec fn without(self, ptype: PowerType) -> PowerView {
        self.with(ptype, None)
    }

    /// No colour is left.
    pub open spec fn is_dead(self) -> bool {
        !self.has(PowerType::Red) && !self.has(PowerType::Blue) && !self.has(PowerType::Green)
    }

    /// The colours still held, in the order Red, Blue, Green.
    pub open spec fn remaining(self) -> Seq<PowerType> {
        let red = if self.has(PowerType::Red) { seq![PowerType::Red] } else { seq![] };
        let blue = if self.has(PowerType::Blue) { seq![PowerType::Blue] } else { seq![] };
        let green = if self.has(PowerType::Green) { seq![PowerType::Green] } else { seq![] };
        red + blue + green
    }

    /// No magnitude is negative.
    pub open spec fn wf(self) -> bool {
        forall|ptype: PowerType| #[trigger] self.strength(ptype) >= 0
    }

    /// Every colour is held, with a magnitude of at least `low` and below `high`.
    pub open spec fn full_within(self, low: int, high: int) -> bool {
        forall|ptype: PowerType|
            #[trigger] self.get(ptype) matches Some(m) && low <= m < high
    }
}

/// The half-open range `low..high` from which magnitudes are drawn.
#[derive(Copy, Clone, Debug)]
pub struct PowerRange {
    pub low: i8,
    pub high: i8,
}

impl PowerRange {
    /// The range is not empty and holds no negative magnitude.
    pub open spec fn wf(self) -> bool {
        0 <= self.low < self.high
    }

    /// The throw of a die: one to five.
    pub fn die() -> (range: PowerRange)
        ensures
            range.low == 1,
            range.high == 6,
            range.wf(),
    {
        PowerRange { low: 1, high: 6 }
    }
}

/// What a player holds in each of the three colours.
#[derive(Copy, Clone, Debug)]
pub struct Power {
    red: ColorPower,
    blue: ColorPower,
    green: ColorPower,
}

impl View for Power {
    type V = PowerView;

    closed spec fn view(&self) -> PowerView {
        PowerView { red: self.red@, blue: self.blue@, green: self.green@ }
    }
}

impl Power {
    /// No magnitude is negative.
    pub open spec fn wf(self) -> bool {
        self@.wf()
    }

    /// The holdings with `held` in place of what the colour `ptype` holds.
    pub closed spec fn spec_with(self, ptype: PowerType, held: ColorPower) -> Power {
        match ptype {
            PowerType::Red => Power { red: held, ..self },
            PowerType::Blue => Power { blue: held, ..self },
            PowerType::Green => Power { green: held, ..self },
        }
    }

    /// Replacing a colour in the holdings replaces it in their model.
    pub broadcast proof fn lemma_view_spec_with(self, ptype: PowerType, held: ColorPower)
        ensures
            #[trigger] self.spec_with(ptype, held)@ == self@.with(ptype, held@),
    {
    }

    /// Holdings with the three magnitudes given.
    pub fn with_magnitudes(red: i8, blue: i8, green: i8) -> (power: Power)
        requires
            red >= 0,
            blue >= 0,
            green >= 0,
        ensures
            power@ == (PowerView { red: Some(red), blue: Some(blue), green: Some(green) }),
            power.wf(),
    {
        let power = Power {
            red: ColorPower::holding(red),
            blue: ColorPower::holding(blue),
            green: ColorPower::holding(green),
        };
        assert forall|ptype: PowerType| #[trigger] power@.strength(ptype) >= 0 by {}
        power
    }

    /// Holdings with all three colours, each magnitude drawn independently and
    /// uniformly from `power_range`.
    pub fn randomize(power_range: PowerRange) -> (power: Power)
        requires
            power_range.wf(),
        ensures
            power@.full_within(power_range.low as int, power_range.high as int),
            power.wf(),
    {
        let red = sample_magnitude(power_range.low, power_range.high);
        let green = sample_magnitude(power_range.low, power_range.high);
        let blue = sample_magnitude(power_range.low, power_range.high);
        let power = Power::with_magnitudes(red, blue, green);
        assert forall|ptype: PowerType|
            #[trigger] power@.get(ptype) matches Some(m) && power_range.low <= m
                < power_range.high by {}
        power
    }
}

impl Index<PowerType> for Power {
    type Output = ColorPower;

    fn index(&self, ptype: PowerType) -> (held: &ColorPower)
        ensures
            held@ == self@.get(ptype),
    {
        match ptype {
            PowerType::Red => &self.red,
            PowerType::Blue => &self.blue,
            PowerType::Green => &self.green,
        }
    }
}

impl vstd::std_specs::core::IndexSpecImpl<PowerType> for Power {
    open spec fn index_req(&self, index: &PowerType) -> bool {
        true
    }
}

impl IndexMut<PowerType> for Power {
    fn index_mut(&mut self, ptype: PowerType) -> (held: &mut ColorPower)
        ensures
            held@ == old(self)@.get(ptype),
            *final(self) == old(self).spec_with(ptype, *final(held)),
    {
        match ptype {
            PowerType::Red => &mut self.red,
            PowerType::Blue => &mut self.blue,
            PowerType::Green => &mut self.green,
        }
    }
}

} // verus!
