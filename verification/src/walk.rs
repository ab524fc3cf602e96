use vstd::prelude::*;

use crate::board::{Board, HEIGHT, WIDTH, in_bounds, is_step, run_len, slot_at};
use crate::color::Color;

verus! {

/// A one-pass cursor over the board: starting beside a given position, it
/// advances by a fixed unit step and yields the target color as long as each
/// next cell holds a disk of that color. The first cell that is off the
/// board, empty, or of the other color ends the sequence for good.
pub struct Walk<'a> {
    board: &'a Board,
    color: Color,
    position: (usize, usize),
    step: (isize, isize),
    done: bool,
}

impl<'a> Walk<'a> {
    /// The walk's invariant: its board is well formed, its position lies on
    /// the board, and its step is a legal unit vector.
    pub closed spec fn wf(self) -> bool {
        &&& self.board.wf()
        &&& in_bounds(self.position.0 as int, self.position.1 as int)
        &&& is_step(self.step.0 as int, self.step.1 as int)
    }

    /// The color the walk is probing for.
    pub closed spec fn target(self) -> Color {
        self.color
    }

    /// How many more cells the walk will yield: the length of the matching
    /// run ahead of its current position, or zero once it has stopped.
    pub closed spec fn remaining(self) -> nat {
        if self.done {
            0
        } else {
            run_len(
                self.board.cells(),
                self.color,
                self.position.0 as int,
                self.position.1 as int,
                self.step.0 as int,
                self.step.1 as int,
            )
        }
    }

    /// A fresh walk for one probe: it will yield `color` once per consecutive
    /// matching cell beyond `position` in direction `step`.
    pub fn new(board: &'a Board, color: Color, position: (usize, usize), step: (isize, isize)) -> (w:
        Walk<'a>)
        requires
            board.wf(),
            in_bounds(position.0 as int, position.1 as int),
            is_step(step.0 as int, step.1 as int),
        ensures
            w.wf(),
            w.target() == color,
            w.remaining() == run_len(
                board.cells(),
                color,
                position.0 as int,
                position.1 as int,
                step.0 as int,
                step.1 as int,
            ),
    {
        Walk { board, color, position, step, done: false }
    }

    /// Advance one cell: yield the target color if that cell holds it, else
    /// end the sequence. Once ended, every further call yields nothing.
    pub fn next(&mut self) -> (r: Option<Color>)
        requires
            old(self).wf(),
        ensures
            final(self).wf(),
            final(self).target() == old(self).target(),
            r == (if old(self).remaining() > 0 {
                Some(old(self).target())
            } else {
                None::<Color>
            }),
            final(self).remaining() == (if old(self).remaining() > 0 {
                (old(self).remaining() - 1) as nat
            } else {
                0nat
            }),
    {
        if self.done {
            return None;
        }
        let nx = self.position.0 as isize + self.step.0;
        let ny = self.position.1 as isize + self.step.1;
        if nx < 0 || ny < 0 {
            self.done = true;
            return None;
        }
        match self.board.get((nx as usize, ny as usize)) {
            None => {
                self.done = true;
                None
            },
            Some(slot) => {
                match *slot {
                    None => {
                        self.done = true;
                        None
                    },
                    Some(c) => {
                        if c == self.color {
                            self.position = (nx as usize, ny as usize);
                            Some(c)
                        } else {
                            self.done = true;
                            None
                        }
                    },
                }
            },
        }
    }
}

} // verus!
