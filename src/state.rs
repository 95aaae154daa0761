use vstd::prelude::*;

use crate::direction::{Chooser, Direction};

verus! {

/// Number of consecutive failed moves after which a program halts.
pub const MAX_ATTEMPTS: u8 = 8;

/// One item written by the program: a number or a character.
#[derive(Clone, Copy, Debug, PartialEq, Eq, Structural)]
pub enum Output {
    Number(i64),
    Char(char),
}

/// The mutable state of a running Piet program.
///
/// * `pointer_location` - (row, column) of the current codel, from the top left corner.
/// * `pointer_direction` - the direction pointer.
/// * `chooser_direction` - the codel chooser.
/// * `stack` - the data stack; its top is the last element.
/// * `termination_counter` - consecutive failed attempts to leave the current block.
/// * `stdin` - the whole input, read before the program started.
/// * `stdin_position` - how much of `stdin` has been consumed.
/// * `output` - everything the program has written, in order.
#[derive(Debug)]
pub struct State {
    pub pointer_location: (usize, usize),
    pub pointer_direction: Direction,
    pub chooser_direction: Chooser,
    pub stack: Vec<i64>,
    pub termination_counter: u8,
    pub stdin: Vec<char>,
    pub stdin_position: usize,
    pub output: Vec<Output>,
}

/// The mathematical value of a [`State`].
pub struct StateModel {
    pub pointer_location: (usize, usize),
    pub pointer_direction: Direction,
    pub chooser_direction: Chooser,
    pub stack: Seq<i64>,
    pub termination_counter: u8,
    pub stdin: Seq<char>,
    pub stdin_position: usize,
    pub output: Seq<Output>,
}

impl StateModel {
    pub open spec fn wf(self) -> bool {
        &&& self.termination_counter <= MAX_ATTEMPTS
        &&& self.stdin_position <= self.stdin.len()
    }

    /// The input that has not been consumed yet.
    pub open spec fn input(self) -> Seq<char> {
        self.stdin.subrange(self.stdin_position as int, self.stdin.len() as int)
    }

    pub open spec fn with_stack(self, stack: Seq<i64>) -> StateModel {
        StateModel { stack, ..self }
    }
}

impl View for State {
    type V = StateModel;

    open spec fn view(&self) -> StateModel {
        StateModel {
            pointer_location: self.pointer_location,
            pointer_direction: self.pointer_direction,
            chooser_direction: self.chooser_direction,
            stack: self.stack@,
            termination_counter: self.termination_counter,
            stdin: self.stdin@,
            stdin_position: self.stdin_position,
            output: self.output@,
        }
    }
}

impl State {
    pub open spec fn wf(&self) -> bool {
        self@.wf()
    }

    /// The state in which every program starts: at the top left codel,
    /// pointing right, chooser left, with an empty stack and all of
    /// `stdin` still to be read.
    pub open spec fn new_model(stdin: Seq<char>) -> StateModel {
        StateModel {
            pointer_location: (0, 0),
            pointer_direction: Direction::Right,
            chooser_direction: Chooser::Left,
            stack: Seq::empty(),
            termination_counter: 0,
            stdin,
            stdin_position: 0,
            output: Seq::empty(),
        }
    }

    /// A fresh state (see [`State::new_model`]).
    pub fn new(stdin: Vec<char>) -> (r: State)
        ensures
            r.wf(),
            r@ == State::new_model(stdin@),
    {
        State {
            pointer_location: (0, 0),
            pointer_direction: Direction::Right,
            chooser_direction: Chooser::Left,
            stack: Vec::new(),
            termination_counter: 0,
            stdin,
            stdin_position: 0,
            output: Vec::new(),
        }
    }
}

} // verus!
