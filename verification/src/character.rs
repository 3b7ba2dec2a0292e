//! The 26-letter alphabet, ordered by English letter frequency.
//!
//! Each letter is assigned the k-th prime at its frequency index, so that
//! frequent letters get small primes and products over typical English words
//! stay small.

use vstd::prelude::*;

verus! {

/// One of the 26 letters, listed in English frequency order
/// (`E` is the most frequent letter, `Z` the least).
#[derive(Clone, Copy, PartialEq, Eq, Structural, Debug, Hash)]
pub enum Character {
    E,
    T,
    A,
    I,
    N,
    O,
    S,
    H,
    R,
    D,
    L,
    U,
    C,
    M,
    F,
    W,
    Y,
    G,
    P,
    B,
    V,
    K,
    Q,
    J,
    X,
    Z,
}

impl Character {
    /// Position of this letter in the frequency order.
    pub open spec fn spec_index(self) -> nat {
        match self {
            Character::E => 0,
            Character::T => 1,
            Character::A => 2,
            Character::I => 3,
            Character::N => 4,
            Character::O => 5,
            Character::S => 6,
            Character::H => 7,
            Character::R => 8,
            Character::D => 9,
            Character::L => 10,
            Character::U => 11,
            Character::C => 12,
            Character::M => 13,
            Character::F => 14,
            Character::W => 15,
            Character::Y => 16,
            Character::G => 17,
            Character::P => 18,
            Character::B => 19,
            Character::V => 20,
            Character::K => 21,
            Character::Q => 22,
            Character::J => 23,
            Character::X => 24,
            Character::Z => 25,
        }
    }

    /// The prime assigned to this letter: the k-th prime for the k-th most
    /// frequent letter.
    pub open spec fn spec_prime(self) -> nat {
        match self {
            Character::E => 2,
            Character::T => 3,
            Character::A => 5,
            Character::I => 7,
            Character::N => 11,
            Character::O => 13,
            Character::S => 17,
            Character::H => 19,
            Character::R => 23,
            Character::D => 29,
            Character::L => 31,
            Character::U => 37,
            Character::C => 41,
            Character::M => 43,
            Character::F => 47,
            Character::W => 53,
            Character::Y => 59,
            Character::G => 61,
            Character::P => 67,
            Character::B => 71,
            Character::V => 73,
            Character::K => 79,
            Character::Q => 83,
            Character::J => 89,
            Character::X => 97,
            Character::Z => 101,
        }
    }

    /// The upper-case `char` this letter prints as.
    pub open spec fn spec_upper(self) -> char {
        match self {
            Character::E => 'E',
            Character::T => 'T',
            Character::A => 'A',
            Character::I => 'I',
            Character::N => 'N',
            Character::O => 'O',
            Character::S => 'S',
            Character::H => 'H',
            Character::R => 'R',
            Character::D => 'D',
            Character::L => 'L',
            Character::U => 'U',
            Character::C => 'C',
            Character::M => 'M',
            Character::F => 'F',
            Character::W => 'W',
            Character::Y => 'Y',
            Character::G => 'G',
            Character::P => 'P',
            Character::B => 'B',
            Character::V => 'V',
            Character::K => 'K',
            Character::Q => 'Q',
            Character::J => 'J',
            Character::X => 'X',
            Character::Z => 'Z',
        }
    }

    pub fn prime(self) -> (r: u128)
        ensures
            r == self.spec_prime(),
    {
        match self {
            Character::E => 2,
            Character::T => 3,
            Character::A => 5,
            Character::I => 7,
            Character::N => 11,
            Character::O => 13,
            Character::S => 17,
            Character::H => 19,
            Character::R => 23,
            Character::D => 29,
            Character::L => 31,
            Character::U => 37,
            Character::C => 41,
            Character::M => 43,
            Character::F => 47,
            Character::W => 53,
            Character::Y => 59,
            Character::G => 61,
            Character::P => 67,
            Character::B => 71,
            Character::V => 73,
            Character::K => 79,
            Character::Q => 83,
            Character::J => 89,
            Character::X => 97,
            Character::Z => 101,
        }
    }

    pub fn as_char(&self) -> (r: char)
        ensures
            r == self.spec_upper(),
    {
        match self {
            Character::A => 'A',
            Character::B => 'B',
            Character::C => 'C',
            Character::D => 'D',
            Character::E => 'E',
            Character::F => 'F',
            Character::G => 'G',
            Character::H => 'H',
            Character::I => 'I',
            Character::J => 'J',
            Character::K => 'K',
            Character::L => 'L',
            Character::M => 'M',
            Character::N => 'N',
            Character::O => 'O',
            Character::P => 'P',
            Character::Q => 'Q',
            Character::R => 'R',
            Character::S => 'S',
            Character::T => 'T',
            Character::U => 'U',
            Character::V => 'V',
            Character::W => 'W',
            Character::X => 'X',
            Character::Y => 'Y',
            Character::Z => 'Z',
        }
    }

    /// The lower-case `char` of this letter.
    pub open spec fn spec_lower(self) -> char {
        match self {
            Character::E => 'e',
            Character::T => 't',
            Character::A => 'a',
            Character::I => 'i',
            Character::N => 'n',
            Character::O => 'o',
            Character::S => 's',
            Character::H => 'h',
            Character::R => 'r',
            Character::D => 'd',
            Character::L => 'l',
            Character::U => 'u',
            Character::C => 'c',
            Character::M => 'm',
            Character::F => 'f',
            Character::W => 'w',
            Character::Y => 'y',
            Character::G => 'g',
            Character::P => 'p',
            Character::B => 'b',
            Character::V => 'v',
            Character::K => 'k',
            Character::Q => 'q',
            Character::J => 'j',
            Character::X => 'x',
            Character::Z => 'z',
        }
    }

    /// The one-character string this letter prints as.
    pub fn as_str(&self) -> (r: &'static str)
        ensures
            r@ == seq![self.spec_upper()],
    {
        match self {
            Character::A => {
                proof {
                    reveal_strlit("A");
                }
                "A"
            },
            Character::B => {
                proof {
                    reveal_strlit("B");
                }
                "B"
            },
            Character::C => {
                proof {
                    reveal_strlit("C");
                }
                "C"
            },
            Character::D => {
                proof {
                    reveal_strlit("D");
                }
                "D"
            },
            Character::E => {
                proof {
                    reveal_strlit("E");
                }
                "E"
            },
            Character::F => {
                proof {
                    reveal_strlit("F");
                }
                "F"
            },
            Character::G => {
                proof {
                    reveal_strlit("G");
                }
                "G"
            },
            Character::H => {
                proof {
                    reveal_strlit("H");
                }
                "H"
            },
            Character::I => {
                proof {
                    reveal_strlit("I");
                }
                "I"
            },
            Character::J => {
                proof {
                    reveal_strlit("J");
                }
                "J"
            },
            Character::K => {
                proof {
                    reveal_strlit("K");
                }
                "K"
            },
            Character::L => {
                proof {
                    reveal_strlit("L");
                }
                "L"
            },
            Character::M => {
                proof {
                    reveal_strlit("M");
                }
                "M"
            },
            Character::N => {
                proof {
                    reveal_strlit("N");
                }
                "N"
            },
            Character::O => {
                proof {
                    reveal_strlit("O");
                }
                "O"
            },
            Character::P => {
                proof {
                    reveal_strlit("P");
                }
                "P"
            },
            Character::Q => {
                proof {
                    reveal_strlit("Q");
                }
                "Q"
            },
            Character::R => {
                proof {
                    reveal_strlit("R");
                }
                "R"
            },
            Character::S => {
                proof {
                    reveal_strlit("S");
                }
                "S"
            },
            Character::T => {
                proof {
                    reveal_strlit("T");
                }
                "T"
            },
            Character::U => {
                proof {
                    reveal_strlit("U");
                }
                "U"
            },
            Character::V => {
                proof {
                    reveal_strlit("V");
                }
                "V"
            },
            Character::W => {
                proof {
                    reveal_strlit("W");
                }
                "W"
            },
            Character::X => {
                proof {
                    reveal_strlit("X");
                }
                "X"
            },
            Character::Y => {
                proof {
                    reveal_strlit("Y");
                }
                "Y"
            },
            Character::Z => {
                proof {
                    reveal_strlit("Z");
                }
                "Z"
            },
        }
    }

    pub fn try_from(value: char) -> (r: Result<Character, &'static str>)
        ensures
            match spec_character_of_char(value) {
                Some(ch) => r == Ok::<Character, &'static str>(ch),
                None => r is Err,
            },
    {
        match value {
            'a' | 'A' => Ok(Character::A),
            'b' | 'B' => Ok(Character::B),
            'c' | 'C' => Ok(Character::C),
            'd' | 'D' => Ok(Character::D),
            'e' | 'E' => Ok(Character::E),
            'f' | 'F' => Ok(Character::F),
            'g' | 'G' => Ok(Character::G),
            'h' | 'H' => Ok(Character::H),
            'i' | 'I' => Ok(Character::I),
            'j' | 'J' => Ok(Character::J),
            'k' | 'K' => Ok(Character::K),
            'l' | 'L' => Ok(Character::L),
            'm' | 'M' => Ok(Character::M),
            'n' | 'N' => Ok(Character::N),
            'o' | 'O' => Ok(Character::O),
            'p' | 'P' => Ok(Character::P),
            'q' | 'Q' => Ok(Character::Q),
            'r' | 'R' => Ok(Character::R),
            's' | 'S' => Ok(Character::S),
            't' | 'T' => Ok(Character::T),
            'u' | 'U' => Ok(Character::U),
            'v' | 'V' => Ok(Character::V),
            'w' | 'W' => Ok(Character::W),
            'x' | 'X' => Ok(Character::X),
            'y' | 'Y' => Ok(Character::Y),
            'z' | 'Z' => Ok(Character::Z),
            _ => Err("Invalid character"),
        }
    }
}

/// The letter a `char` stands for: defined for ASCII letters of either case,
/// and for nothing else.
pub open spec fn spec_character_of_char(c: char) -> Option<Character> {
    match c {
        'a' | 'A' => Some(Character::A),
        'b' | 'B' => Some(Character::B),
        'c' | 'C' => Some(Character::C),
        'd' | 'D' => Some(Character::D),
        'e' | 'E' => Some(Character::E),
        'f' | 'F' => Some(Character::F),
        'g' | 'G' => Some(Character::G),
        'h' | 'H' => Some(Character::H),
        'i' | 'I' => Some(Character::I),
        'j' | 'J' => Some(Character::J),
        'k' | 'K' => Some(Character::K),
        'l' | 'L' => Some(Character::L),
        'm' | 'M' => Some(Character::M),
        'n' | 'N' => Some(Character::N),
        'o' | 'O' => Some(Character::O),
        'p' | 'P' => Some(Character::P),
        'q' | 'Q' => Some(Character::Q),
        'r' | 'R' => Some(Character::R),
        's' | 'S' => Some(Character::S),
        't' | 'T' => Some(Character::T),
        'u' | 'U' => Some(Character::U),
        'v' | 'V' => Some(Character::V),
        'w' | 'W' => Some(Character::W),
        'x' | 'X' => Some(Character::X),
        'y' | 'Y' => Some(Character::Y),
        'z' | 'Z' => Some(Character::Z),
        _ => None,
    }
}

/// A table with one slot per prime index; the extra slot keeps room for a
/// sentinel entry.
#[derive(Clone, Copy, PartialEq, Eq, Structural, Debug)]
pub struct CharacterMap<T> {
    pub slots: [T; 27],
}

impl<T> CharacterMap<T> {
    pub fn get(&self, c: Character) -> (r: &T)
        ensures
            r == self.slots@[c.spec_index() as int],
    {
        let i = c.index();
        &self.slots[i]
    }

    pub fn get_mut(&mut self, c: Character) -> (r: &mut T)
        ensures
            *r == old(self).slots@[c.spec_index() as int],
            forall|j: int|
                0 <= j < 27 && j != c.spec_index() ==> final(self).slots@[j] == old(
                    self,
                ).slots@[j],
            final(self).slots@[c.spec_index() as int] == *final(r),
    {
        let i = c.index();
        &mut self.slots[i]
    }

    pub fn set(&mut self, c: Character, value: T)
        ensures
            final(self).slots@ == old(self).slots@.update(c.spec_index() as int, value),
    {
        self.slots[c.index()] = value;
        proof {
            assert(final(self).slots@ =~= old(self).slots@.update(
                c.spec_index() as int,
                value,
            ));
        }
    }
}

impl Character {
    /// This letter's prime index: its position in the frequency order.
    pub fn index(&self) -> (r: usize)
        ensures
            r as nat == self.spec_index(),
            r < 26,
    {
        match self {
            Character::E => 0,
            Character::T => 1,
            Character::A => 2,
            Character::I => 3,
            Character::N => 4,
            Character::O => 5,
            Character::S => 6,
            Character::H => 7,
            Character::R => 8,
            Character::D => 9,
            Character::L => 10,
            Character::U => 11,
            Character::C => 12,
            Character::M => 13,
            Character::F => 14,
            Character::W => 15,
            Character::Y => 16,
            Character::G => 17,
            Character::P => 18,
            Character::B => 19,
            Character::V => 20,
            Character::K => 21,
            Character::Q => 22,
            Character::J => 23,
            Character::X => 24,
            Character::Z => 25,
        }
    }
}

/// A `char` folded to lower case: ASCII letters lose their case, everything
/// else is left alone.
pub open spec fn spec_lower_char(c: char) -> char {
    match spec_character_of_char(c) {
        Some(ch) => ch.spec_lower(),
        None => c,
    }
}

/// A whole character sequence folded to lower case.
pub open spec fn lower_seq(s: Seq<char>) -> Seq<char> {
    s.map_values(|c: char| spec_lower_char(c))
}

/// Folds one character to lower case.
pub fn to_lower_char(c: char) -> (r: char)
    ensures
        r == spec_lower_char(c),
{
    match c {
        'a' | 'A' => 'a',
        'b' | 'B' => 'b',
        'c' | 'C' => 'c',
        'd' | 'D' => 'd',
        'e' | 'E' => 'e',
        'f' | 'F' => 'f',
        'g' | 'G' => 'g',
        'h' | 'H' => 'h',
        'i' | 'I' => 'i',
        'j' | 'J' => 'j',
        'k' | 'K' => 'k',
        'l' | 'L' => 'l',
        'm' | 'M' => 'm',
        'n' | 'N' => 'n',
        'o' | 'O' => 'o',
        'p' | 'P' => 'p',
        'q' | 'Q' => 'q',
        'r' | 'R' => 'r',
        's' | 'S' => 's',
        't' | 'T' => 't',
        'u' | 'U' => 'u',
        'v' | 'V' => 'v',
        'w' | 'W' => 'w',
        'x' | 'X' => 'x',
        'y' | 'Y' => 'y',
        'z' | 'Z' => 'z',
        _ => c,
    }
}

/// Rendering a letter and reading the rendered `char` back gives the same
/// letter.
pub proof fn lemma_upper_round_trip(ch: Character)
    ensures
        spec_character_of_char(ch.spec_upper()) == Some(ch),
{
}

} // verus!
