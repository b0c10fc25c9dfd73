//! The number keys of the keyboard, and the scancodes that stand for them.

use vstd::prelude::*;
use vstd::std_specs::convert::TryFromSpecImpl;

verus! {

/// A number key.
#[derive(Copy, Clone, Debug)]
pub enum Key {
    One,
    Two,
    Three,
    Four,
    Five,
    Six,
    Seven,
    Eight,
    Nine,
    Zero,
}

/// A scancode of the first set, as the keyboard sends it when a key goes down.
#[derive(Copy, Clone, Debug)]
pub struct XT(pub u8);

impl Key {
    /// The number on the key.
    pub open spec fn number(self) -> int {
        match self {
            Key::Zero => 0,
            Key::One => 1,
            Key::Two => 2,
            Key::Three => 3,
            Key::Four => 4,
            Key::Five => 5,
            Key::Six => 6,
            Key::Seven => 7,
            Key::Eight => 8,
            Key::Nine => 9,
        }
    }

    /// The key with the number `number` on it, for the numbers from 0 to 9.
    pub open spec fn with_number(number: int) -> Key {
        if number == 1 {
            Key::One
        } else if number == 2 {
            Key::Two
        } else if number == 3 {
            Key::Three
        } else if number == 4 {
            Key::Four
        } else if number == 5 {
            Key::Five
        } else if number == 6 {
            Key::Six
        } else if number == 7 {
            Key::Seven
        } else if number == 8 {
            Key::Eight
        } else if number == 9 {
            Key::Nine
        } else {
            Key::Zero
        }
    }

    /// The character on the key, in ASCII: the digits go from `0x30` for 0 to `0x39` for 9.
    pub fn as_u8(self) -> (character: u8)
        ensures
            character == 0x30 + self.number(),
    {
        match self {
            Key::One => 0x31,
            Key::Two => 0x32,
            Key::Three => 0x33,
            Key::Four => 0x34,
            Key::Five => 0x35,
            Key::Six => 0x36,
            Key::Seven => 0x37,
            Key::Eight => 0x38,
            Key::Nine => 0x39,
            Key::Zero => 0x30,
        }
    }
}

impl TryFrom<XT> for Key {
    type Error = &'static str;

    /// The key that the scancode `value` stands for. The number keys lie side by side:
    /// the scancodes from 2 to 10 stand for the keys from 1 to 9, and 11 stands for 0.
    /// No other scancode stands for a number key.
    fn try_from(value: XT) -> (key: Result<Self, Self::Error>)
        ensures
            key is Ok <==> 0x02 <= value.0 <= 0x0b,
            key matches Ok(k) ==> k.number() == (value.0 - 1) % 10,
    {
        match value.0 {
            0x02 => Ok(Key::One),
            0x03 => Ok(Key::Two),
            0x04 => Ok(Key::Three),
            0x05 => Ok(Key::Four),
            0x06 => Ok(Key::Five),
            0x07 => Ok(Key::Six),
            0x08 => Ok(Key::Seven),
            0x09 => Ok(Key::Eight),
            0x0a => Ok(Key::Nine),
            0x0b => Ok(Key::Zero),
            _ => Err("Unknown character"),
        }
    }
}

impl TryFromSpecImpl<XT> for Key {
    open spec fn obeys_try_from_spec() -> bool {
        true
    }

    open spec fn try_from_spec(value: XT) -> Result<Self, &'static str> {
        if 0x02 <= value.0 <= 0x0b {
            Ok(Key::with_number((value.0 - 1) % 10))
        } else {
            Err("Unknown character")
        }
    }
}

} // verus!
