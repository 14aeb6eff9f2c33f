//! Cell contents and board outcomes.

use vstd::prelude::*;

verus! {

/// What one cell of a board holds. `Disabled` marks a cell of the meta-board
/// whose sub-board ended in a tie: no side can ever own it.
#[derive(Clone, Copy, Debug, PartialEq, Eq, Hash, Structural)]
pub enum Slot {
    Empty,
    X,
    O,
    Disabled,
}

impl Slot {
    /// The side that plays against `self`; other contents stay as they are.
    pub open spec fn opposite(self) -> Slot {
        match self {
            Slot::X => Slot::O,
            Slot::O => Slot::X,
            _ => self,
        }
    }

    pub open spec fn is_side(self) -> bool {
        self == Slot::X || self == Slot::O
    }

    pub fn to_chr(self) -> (r: char)
        ensures
            r == (match self {
                Slot::Empty => ' ',
                Slot::X => 'X',
                Slot::O => 'O',
                Slot::Disabled => '_',
            }),
    {
        match self {
            Slot::Empty => ' ',
            Slot::X => 'X',
            Slot::O => 'O',
            Slot::Disabled => '_',
        }
    }

    pub fn flip(self) -> (r: Slot)
        ensures
            r == self.opposite(),
    {
        match self {
            Slot::X => Slot::O,
            Slot::O => Slot::X,
            _ => self,
        }
    }
}

/// Outcome of a board, seen from side X.
#[derive(Clone, Copy, Debug, PartialEq, Eq, Hash, Structural)]
pub enum State {
    Won,
    Lost,
    Tied,
    Undecided,
}

impl State {
    /// The two-bit code under which a board stores its outcome.
    pub open spec fn code(self) -> u32 {
        match self {
            State::Undecided => 0,
            State::Won => 1,
            State::Lost => 2,
            State::Tied => 3,
        }
    }

    pub open spec fn from_code(bits: u32) -> State {
        if bits == 0 {
            State::Undecided
        } else if bits == 1 {
            State::Won
        } else if bits == 2 {
            State::Lost
        } else {
            State::Tied
        }
    }

    /// The outcome seen from the other side: won and lost trade places.
    pub open spec fn opposite(self) -> State {
        match self {
            State::Won => State::Lost,
            State::Lost => State::Won,
            _ => self,
        }
    }

    pub fn to_u32(self) -> (r: u32)
        ensures
            r == self.code(),
            r < 4,
            State::from_code(r) == self,
    {
        match self {
            State::Undecided => 0,
            State::Won => 1,
            State::Lost => 2,
            State::Tied => 3,
        }
    }

    pub fn from_u32(bits: u32) -> (r: State)
        requires
            bits < 4,
        ensures
            r == State::from_code(bits),
            r.code() == bits,
    {
        match bits {
            0 => State::Undecided,
            1 => State::Won,
            2 => State::Lost,
            _ => State::Tied,
        }
    }

    pub fn flip(self) -> (r: State)
        ensures
            r == self.opposite(),
    {
        match self {
            State::Won => State::Lost,
            State::Lost => State::Won,
            _ => self,
        }
    }
}

} // verus!
