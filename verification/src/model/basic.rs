//! Small enumerations and the byte that stands for each on disk.

use vstd::prelude::*;

verus! {

/// The side of a player.
#[derive(Clone, Copy, Debug, PartialEq, Eq, Structural, Hash)]
pub enum Color {
    White,
    Black,
}

impl Color {
    /// The byte that stands for the colour.
    pub open spec fn byte(self) -> u8 {
        match self {
            Color::White => 0,
            Color::Black => 1,
        }
    }

    /// The colour that a byte stands for, if any.
    pub open spec fn of_byte(b: u8) -> Option<Color> {
        if b == 0 {
            Some(Color::White)
        } else if b == 1 {
            Some(Color::Black)
        } else {
            None
        }
    }

    /// The other side.
    pub open spec fn other(self) -> Color {
        match self {
            Color::White => Color::Black,
            Color::Black => Color::White,
        }
    }

    /// The byte that stands for the value.
    pub fn to_byte(self) -> (b: u8)
        ensures
            b == self.byte(),
            Color::of_byte(b) == Some(self),
    {
        match self {
            Color::White => 0,
            Color::Black => 1,
        }
    }

    /// The value that a byte stands for, if any.
    pub fn from_byte(b: u8) -> (r: Option<Color>)
        ensures
            r == Color::of_byte(b),
    {
        if b == 0 {
            Some(Color::White)
        } else if b == 1 {
            Some(Color::Black)
        } else {
            None
        }
    }

    /// The other side.
    pub fn opposite(self) -> (c: Color)
        ensures
            c == self.other(),
    {
        match self {
            Color::White => Color::Black,
            Color::Black => Color::White,
        }
    }
}

/// The rule set of a game.
#[derive(Clone, Copy, Debug, PartialEq, Eq, Structural, Hash)]
pub enum Variant {
    Chess,
    Atomic,
    Antichess,
    KingOfTheHill,
    ThreeCheck,
    Crazyhouse,
    RacingKings,
    Horde,
}

impl Variant {
    /// The byte that stands for the variant.
    pub open spec fn byte(self) -> u8 {
        match self {
            Variant::Chess => 0,
            Variant::Atomic => 1,
            Variant::Antichess => 2,
            Variant::KingOfTheHill => 3,
            Variant::ThreeCheck => 4,
            Variant::Crazyhouse => 5,
            Variant::RacingKings => 6,
            Variant::Horde => 7,
        }
    }

    /// The variant that a byte stands for, if any.
    pub open spec fn of_byte(b: u8) -> Option<Variant> {
        if b == 0 {
            Some(Variant::Chess)
        } else if b == 1 {
            Some(Variant::Atomic)
        } else if b == 2 {
            Some(Variant::Antichess)
        } else if b == 3 {
            Some(Variant::KingOfTheHill)
        } else if b == 4 {
            Some(Variant::ThreeCheck)
        } else if b == 5 {
            Some(Variant::Crazyhouse)
        } else if b == 6 {
            Some(Variant::RacingKings)
        } else if b == 7 {
            Some(Variant::Horde)
        } else {
            None
        }
    }

    /// The byte that stands for the value.
    pub fn to_byte(self) -> (b: u8)
        ensures
            b == self.byte(),
            Variant::of_byte(b) == Some(self),
    {
        match self {
            Variant::Chess => 0,
            Variant::Atomic => 1,
            Variant::Antichess => 2,
            Variant::KingOfTheHill => 3,
            Variant::ThreeCheck => 4,
            Variant::Crazyhouse => 5,
            Variant::RacingKings => 6,
            Variant::Horde => 7,
        }
    }

    /// The value that a byte stands for, if any.
    pub fn from_byte(b: u8) -> (r: Option<Variant>)
        ensures
            r == Variant::of_byte(b),
    {
        if b == 0 {
            Some(Variant::Chess)
        } else if b == 1 {
            Some(Variant::Atomic)
        } else if b == 2 {
            Some(Variant::Antichess)
        } else if b == 3 {
            Some(Variant::KingOfTheHill)
        } else if b == 4 {
            Some(Variant::ThreeCheck)
        } else if b == 5 {
            Some(Variant::Crazyhouse)
        } else if b == 6 {
            Some(Variant::RacingKings)
        } else if b == 7 {
            Some(Variant::Horde)
        } else {
            None
        }
    }
}

/// The time control class of a game.
#[derive(Clone, Copy, Debug, PartialEq, Eq, Structural, Hash)]
pub enum Speed {
    UltraBullet,
    Bullet,
    Blitz,
    Rapid,
    Classical,
    Correspondence,
}

impl Speed {
    /// The byte that stands for the speed.
    pub open spec fn byte(self) -> u8 {
        match self {
            Speed::UltraBullet => 0,
            Speed::Bullet => 1,
            Speed::Blitz => 2,
            Speed::Rapid => 3,
            Speed::Classical => 4,
            Speed::Correspondence => 5,
        }
    }

    /// The speed that a byte stands for, if any.
    pub open spec fn of_byte(b: u8) -> Option<Speed> {
        if b == 0 {
            Some(Speed::UltraBullet)
        } else if b == 1 {
            Some(Speed::Bullet)
        } else if b == 2 {
            Some(Speed::Blitz)
        } else if b == 3 {
            Some(Speed::Rapid)
        } else if b == 4 {
            Some(Speed::Classical)
        } else if b == 5 {
            Some(Speed::Correspondence)
        } else {
            None
        }
    }

    /// The byte that stands for the value.
    pub fn to_byte(self) -> (b: u8)
        ensures
            b == self.byte(),
            Speed::of_byte(b) == Some(self),
    {
        match self {
            Speed::UltraBullet => 0,
            Speed::Bullet => 1,
            Speed::Blitz => 2,
            Speed::Rapid => 3,
            Speed::Classical => 4,
            Speed::Correspondence => 5,
        }
    }

    /// The value that a byte stands for, if any.
    pub fn from_byte(b: u8) -> (r: Option<Speed>)
        ensures
            r == Speed::of_byte(b),
    {
        if b == 0 {
            Some(Speed::UltraBullet)
        } else if b == 1 {
            Some(Speed::Bullet)
        } else if b == 2 {
            Some(Speed::Blitz)
        } else if b == 3 {
            Some(Speed::Rapid)
        } else if b == 4 {
            Some(Speed::Classical)
        } else if b == 5 {
            Some(Speed::Correspondence)
        } else {
            None
        }
    }
}

/// Whether a game counted for rating.
#[derive(Clone, Copy, Debug, PartialEq, Eq, Structural, Hash)]
pub enum Mode {
    Rated,
    Casual,
}

impl Mode {
    /// The byte that stands for the mode.
    pub open spec fn byte(self) -> u8 {
        match self {
            Mode::Rated => 0,
            Mode::Casual => 1,
        }
    }

    /// The mode that a byte stands for, if any.
    pub open spec fn of_byte(b: u8) -> Option<Mode> {
        if b == 0 {
            Some(Mode::Rated)
        } else if b == 1 {
            Some(Mode::Casual)
        } else {
            None
        }
    }

    /// The byte that stands for the value.
    pub fn to_byte(self) -> (b: u8)
        ensures
            b == self.byte(),
            Mode::of_byte(b) == Some(self),
    {
        match self {
            Mode::Rated => 0,
            Mode::Casual => 1,
        }
    }

    /// The value that a byte stands for, if any.
    pub fn from_byte(b: u8) -> (r: Option<Mode>)
        ensures
            r == Mode::of_byte(b),
    {
        if b == 0 {
            Some(Mode::Rated)
        } else if b == 1 {
            Some(Mode::Casual)
        } else {
            None
        }
    }
}

/// The byte that stands for the winner of a game: none for a draw.
pub open spec fn winner_byte(winner: Option<Color>) -> u8 {
    match winner {
        None => 0,
        Some(Color::White) => 1,
        Some(Color::Black) => 2,
    }
}

/// The winner that a byte stands for, if the byte is one of the three.
pub open spec fn winner_of_byte(b: u8) -> Option<Option<Color>> {
    if b == 0 {
        Some(None)
    } else if b == 1 {
        Some(Some(Color::White))
    } else if b == 2 {
        Some(Some(Color::Black))
    } else {
        None
    }
}

/// The byte that stands for the winner of a game.
pub fn winner_to_byte(winner: Option<Color>) -> (b: u8)
    ensures
        b == winner_byte(winner),
        winner_of_byte(b) == Some(winner),
{
    match winner {
        None => 0,
        Some(Color::White) => 1,
        Some(Color::Black) => 2,
    }
}

/// The winner that a byte stands for, if the byte is one of the three.
pub fn winner_from_byte(b: u8) -> (r: Option<Option<Color>>)
    ensures
        r == winner_of_byte(b),
{
    if b == 0 {
        Some(None)
    } else if b == 1 {
        Some(Some(Color::White))
    } else if b == 2 {
        Some(Some(Color::Black))
    } else {
        None
    }
}

} // verus!
