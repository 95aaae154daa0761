use vstd::prelude::*;

use crate::codel::Codel;
use crate::command::{execute, spec_execute};
use crate::direction::Direction;
use crate::program::{Program, inside};
use crate::region::spec_edge;
use crate::state::{MAX_ATTEMPTS, State, StateModel};

verus! {

/// An interpreter for a Piet program.
///
/// * `program` - the program being run.
/// * `state` - the state of the run.
#[derive(Debug)]
pub struct Interpreter {
    pub program: Program,
    pub state: State,
}

/// How far `p` can still move in direction `d` before leaving the grid.
pub open spec fn room(prog: Program, p: (usize, usize), d: Direction) -> nat {
    match d {
        Direction::Up => p.0 as nat,
        Direction::Down => if prog.rows > p.0 { (prog.rows - p.0) as nat } else { 0 },
        Direction::Left => p.1 as nat,
        Direction::Right => if prog.cols > p.1 { (prog.cols - p.1) as nat } else { 0 },
    }
}

/// The last point reached from `p` by moving straight in direction `d`
/// through codels of the colour of `p`.
pub open spec fn spec_straight_edge(prog: Program, p: (usize, usize), d: Direction) -> (usize, usize)
    decreases room(prog, p, d),
{
    match prog.spec_next_point(p, d) {
        Some((q, c)) => if c == prog.color(p) && room(prog, q, d) < room(prog, p, d) {
            spec_straight_edge(prog, q, d)
        } else {
            p
        },
        None => p,
    }
}

/// The codel through which the pointer leaves its block: the farthest
/// codel of the block in the pointer's direction, and of those, the farthest
/// in the direction the chooser picks.
pub open spec fn spec_exit(prog: Program, m: StateModel) -> (usize, usize) {
    let p = m.pointer_location;
    let d = m.pointer_direction;
    let first = spec_edge(prog.block(p), p, d);
    spec_edge(prog.block(first), first, m.chooser_direction.spec_turn(d))
}

/// Where the pointer moves from its block, with the colour found there and
/// whether it slid across white; `None` when the way out is blocked by the
/// edge of the grid or by black.
pub open spec fn spec_next_coordinates(prog: Program, m: StateModel) -> Option<((usize, usize), Codel, bool)> {
    let d = m.pointer_direction;
    match prog.spec_next_point(spec_exit(prog, m), d) {
        None => None,
        Some((q, c)) => if c == Codel::Black {
            None
        } else if c == Codel::White {
            let w = spec_straight_edge(prog, q, d);
            match prog.spec_next_point(w, d) {
                Some((after, ac)) => if ac.is_color() {
                    Some((after, ac, true))
                } else {
                    Some((w, Codel::White, true))
                },
                None => Some((w, Codel::White, true)),
            }
        } else {
            Some((q, c, false))
        },
    }
}

/// One step of the program. When the pointer can move, the command that
/// the change of colour selects is carried out (none after white) and the
/// attempts are reset; otherwise the chooser is toggled after an even number
/// of failed attempts and the direction turned clockwise after an odd one.
pub open spec fn spec_advance(prog: Program, m: StateModel) -> StateModel {
    match spec_next_coordinates(prog, m) {
        Some((next, codel, passed_white)) => {
            let current = prog.color(m.pointer_location);
            let change = if current == Codel::White || passed_white {
                (0u8, 0u8)
            } else {
                match current.spec_compare(codel) {
                    Some(c) => c,
                    None => (0u8, 0u8),
                }
            };
            let size = prog.block(m.pointer_location).len() as int;
            let after = spec_execute(m, change.0, change.1, size);
            StateModel { pointer_location: next, termination_counter: 0, ..after }
        },
        None => if m.termination_counter % 2 == 0 {
            StateModel {
                chooser_direction: m.chooser_direction.spec_next(),
                termination_counter: (m.termination_counter + 1) as u8,
                ..m
            }
        } else {
            StateModel {
                pointer_direction: m.pointer_direction.spec_next(),
                termination_counter: (m.termination_counter + 1) as u8,
                ..m
            }
        },
    }
}

/// The state after at most `fuel` steps, stopping once the program halts.
pub open spec fn spec_run(prog: Program, m: StateModel, fuel: nat) -> StateModel
    decreases fuel,
{
    if fuel == 0 || m.termination_counter >= MAX_ATTEMPTS {
        m
    } else {
        spec_run(prog, spec_advance(prog, m), (fuel - 1) as nat)
    }
}

/// A step from a running state leaves at most the limit of failed attempts.
pub proof fn lemma_advance_counter_bounded(prog: Program, m: StateModel)
    requires
        m.termination_counter < MAX_ATTEMPTS,
    ensures
        spec_advance(prog, m).termination_counter <= MAX_ATTEMPTS,
{
}

/// Every state reached from a state within the limit of failed attempts
/// stays within it.
pub proof fn lemma_run_counter_bounded(prog: Program, m: StateModel, fuel: nat)
    requires
        m.termination_counter <= MAX_ATTEMPTS,
    ensures
        spec_run(prog, m, fuel).termination_counter <= MAX_ATTEMPTS,
    decreases fuel,
{
    if fuel > 0 && m.termination_counter < MAX_ATTEMPTS {
        lemma_advance_counter_bounded(prog, m);
        lemma_run_counter_bounded(prog, spec_advance(prog, m), (fuel - 1) as nat);
    }
}

impl Interpreter {
    /// The program is well formed, the state too, and the pointer lies on the grid.
    pub open spec fn wf(&self) -> bool {
        &&& self.program.wf()
        &&& self.state.wf()
        &&& self.program.inside(self.state.pointer_location)
    }

    /// Whether the program has stopped: its last attempts to move all failed.
    pub open spec fn halted(&self) -> bool {
        self.state.termination_counter >= MAX_ATTEMPTS
    }

    /// Starts a program with the given input.
    pub fn new(program: Program, stdin: Vec<char>) -> (r: Self)
        requires
            program.wf(),
            program.rows > 0,
            program.cols > 0,
        ensures
            r.wf(),
            r.program == program,
            r.state@ == State::new_model(stdin@),
    {
        Interpreter { program, state: State::new(stdin) }
    }

    /// Runs the program until it halts (for at most `u64::MAX` steps).
    pub fn run(&mut self)
        requires
            old(self).wf(),
        ensures
            final(self).wf(),
            final(self).program == old(self).program,
            final(self).state@ == spec_run(old(self).program, old(self).state@, u64::MAX as nat),
    {
        let mut fuel: u64 = u64::MAX;
        while self.state.termination_counter < MAX_ATTEMPTS && fuel > 0
            invariant
                self.wf(),
                self.program == old(self).program,
                spec_run(self.program, self.state@, fuel as nat) == spec_run(
                    old(self).program,
                    old(self).state@,
                    u64::MAX as nat,
                ),
            decreases fuel,
        {
            self.advance();
            fuel = fuel - 1;
        }
    }

    /// Moves the program one step (see [`spec_advance`]).
    pub fn advance(&mut self)
        requires
            old(self).wf(),
            !old(self).halted(),
        ensures
            final(self).wf(),
            final(self).program == old(self).program,
            final(self).state@ == spec_advance(old(self).program, old(self).state@),
    {
        if let Some((next_location, next_codel, passed_white)) = self.next_coordinates() {
            let current = self.program.color_at(self.state.pointer_location);
            let (delta_hue, delta_lightness) = if current == Codel::White || passed_white {
                (0, 0)
            } else {
                match current.compare(&next_codel) {
                    Some(c) => c,
                    None => (0, 0),
                }
            };
            let current_region_size = self.program.region_at(self.state.pointer_location).size;
            execute(&mut self.state, delta_hue, delta_lightness, current_region_size);
            self.state.pointer_location = next_location;
            self.state.termination_counter = 0;
        } else {
            if self.state.termination_counter % 2 == 0 {
                self.state.chooser_direction = self.state.chooser_direction.next();
            } else {
                self.state.pointer_direction = self.state.pointer_direction.next();
            }
            self.state.termination_counter = self.state.termination_counter + 1;
        }
    }

    /// Where the pointer moves next (see [`spec_next_coordinates`]).
    fn next_coordinates(&self) -> (r: Option<((usize, usize), Codel, bool)>)
        requires
            self.wf(),
        ensures
            r == spec_next_coordinates(self.program, self.state@),
            r matches Some((p, c, _)) ==> self.program.inside(p) && c == self.program.color(p)
                && c.wf(),
    {
        let direction = self.state.pointer_direction;
        let first_edge = self.disjoint_edge_coordinate(self.state.pointer_location, direction);
        let second_edge = self.disjoint_edge_coordinate(
            first_edge,
            self.state.chooser_direction.turn(direction),
        );
        match self.program.next_point(second_edge, direction) {
            None => None,
            Some((next_location, next_codel)) => {
                if next_codel == Codel::Black {
                    None
                } else if next_codel == Codel::White {
                    let white_edge = self.edge_coordinate(next_location, direction);
                    match self.program.next_point(white_edge, direction) {
                        Some((color_location, color_codel)) => match color_codel {
                            Codel::Color { .. } => Some((color_location, color_codel, true)),
                            _ => Some((white_edge, Codel::White, true)),
                        },
                        None => Some((white_edge, Codel::White, true)),
                    }
                } else {
                    Some((next_location, next_codel, false))
                }
            },
        }
    }

    /// The last codel reached from `start` by moving straight in `direction`
    /// through codels of the colour of `start`.
    fn edge_coordinate(&self, start: (usize, usize), direction: Direction) -> (r: (usize, usize))
        requires
            self.program.wf(),
            self.program.inside(start),
        ensures
            r == spec_straight_edge(self.program, start, direction),
            self.program.inside(r),
            self.program.color(r) == self.program.color(start),
    {
        let codel = self.program.color_at(start);
        let mut pointer = start;
        let mut edge = false;
        while !edge
            invariant
                self.program.wf(),
                self.program.inside(pointer),
                self.program.color(pointer) == codel,
                codel == self.program.color(start),
                edge ==> pointer == spec_straight_edge(self.program, pointer, direction),
                spec_straight_edge(self.program, start, direction) == spec_straight_edge(
                    self.program,
                    pointer,
                    direction,
                ),
            decreases room(self.program, pointer, direction) + if edge { 0int } else { 1int },
        {
            match self.program.next_point(pointer, direction) {
                Some((next_pointer, next_codel)) => {
                    if next_codel == codel {
                        pointer = next_pointer;
                    } else {
                        edge = true;
                    }
                },
                None => {
                    edge = true;
                },
            }
        }
        pointer
    }

    /// The farthest codel of the block of `start` in `direction` (see
    /// [`crate::region::is_edge`]).
    fn disjoint_edge_coordinate(&self, start: (usize, usize), direction: Direction) -> (r: (
        usize,
        usize,
    ))
        requires
            self.program.wf(),
            self.program.inside(start),
        ensures
            r == spec_edge(self.program.block(start), start, direction),
            self.program.inside(r),
    {
        let region = self.program.region_at(start);
        let r = region.edge(start, direction);
        proof {
            assert(region.members@.contains(r));
            let i = self.program.region_index(start);
            assert(self.program.regions@[i].members@.contains(r));
        }
        r
    }
}

} // verus!
