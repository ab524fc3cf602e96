use vstd::prelude::*;

verus! {

/// A player's identity. The game has exactly two players, told apart by the
/// color of their disks.
#[derive(Clone, Copy, PartialEq, Eq, Structural, Debug)]
pub enum Color {
    Blue,
    Red,
}

impl Color {
    /// The color that takes the first turn.
    pub fn default() -> (c: Color)
        ensures
            c == Color::Red,
    {
        Color::Red
    }

    /// Replace this color with the other one.
    pub fn invert(&mut self)
        ensures
            *final(self) == (if *old(self) == Color::Blue { Color::Red } else { Color::Blue }),
    {
        *self = if *self == Color::Blue { Color::Red } else { Color::Blue };
    }

    /// The color's name, for display.
    pub fn name(&self) -> (r: &'static str)
        ensures
            r@ == (if *self == Color::Blue { "Blue"@ } else { "Red"@ }),
    {
        if *self == Color::Blue { "Blue" } else { "Red" }
    }
}

} // verus!
