use piet::codel::Codel;
use piet::interpreter::Interpreter;
use piet::program::Program;
use piet::state::Output;

fn color(hue: u8, lightness: u8) -> Codel {
    Codel::Color { hue, lightness }
}

/// One row of blocks: each letter is pushed as the size of a block and then
/// written by the next transition.
fn hello_program() -> Program {
    let blocks: Vec<(Codel, usize)> = vec![
        (color(0, 0), 72),
        (color(0, 1), 1),
        (color(5, 0), 101),
        (color(5, 1), 1),
        (color(4, 0), 108),
        (color(4, 1), 1),
        (color(3, 0), 108),
        (color(3, 1), 1),
        (color(2, 0), 111),
        (color(2, 1), 1),
        (color(1, 0), 1),
    ];
    let mut row = Vec::new();
    for (codel, size) in blocks {
        for _ in 0..size {
            row.push(codel);
        }
    }
    let cols = row.len();
    Program::new(vec![row], 1, cols)
}

fn rendered(output: &[Output]) -> String {
    let mut text = String::new();
    for item in output {
        match item {
            Output::Number(n) => text.push_str(&n.to_string()),
            Output::Char(c) => text.push(*c),
        }
    }
    text
}

#[test]
fn hello_end_to_end() {
    let mut interpreter = Interpreter::new(hello_program(), vec![]);
    for _ in 0..10 {
        interpreter.advance();
    }
    assert_eq!(rendered(&interpreter.state.output), "Hello");
    assert_eq!(
        interpreter.state.output,
        vec![
            Output::Char('H'),
            Output::Char('e'),
            Output::Char('l'),
            Output::Char('l'),
            Output::Char('o'),
        ]
    );
    assert!(interpreter.state.stack.is_empty());
}

#[test]
fn single_codel_program_halts_after_eight_attempts() {
    let program = Program::new(vec![vec![color(0, 0)]], 1, 1);
    let mut interpreter = Interpreter::new(program, vec![]);
    interpreter.run();
    assert_eq!(interpreter.state.termination_counter, 8);
    assert_eq!(interpreter.state.pointer_location, (0, 0));
    assert!(interpreter.state.output.is_empty());
}

#[test]
fn retries_toggle_chooser_then_turn_pointer() {
    let program = Program::new(vec![vec![color(0, 0), Codel::Black]], 1, 2);
    let mut interpreter = Interpreter::new(program, vec![]);
    interpreter.advance();
    assert_eq!(interpreter.state.termination_counter, 1);
    assert_eq!(interpreter.state.chooser_direction, piet::direction::Chooser::Right);
    assert_eq!(interpreter.state.pointer_direction, piet::direction::Direction::Right);
    interpreter.advance();
    assert_eq!(interpreter.state.termination_counter, 2);
    assert_eq!(interpreter.state.pointer_direction, piet::direction::Direction::Down);
}

#[test]
fn sliding_through_white_runs_no_command() {
    let program = Program::new(
        vec![vec![color(0, 0), Codel::White, Codel::White, color(0, 1), Codel::Black]],
        1,
        5,
    );
    let mut interpreter = Interpreter::new(program, vec![]);
    interpreter.advance();
    assert_eq!(interpreter.state.pointer_location, (0, 3));
    assert!(interpreter.state.stack.is_empty());
    assert_eq!(interpreter.state.termination_counter, 0);
}

#[test]
fn exit_uses_farthest_codel_then_chooser() {
    // A red block shaped like an L; the pointer leaves from its rightmost
    // column, at the top (chooser left of right is up).
    let r = color(0, 1);
    let g = color(2, 1);
    let program = Program::new(
        vec![
            vec![r, r, g],
            vec![r, Codel::Black, Codel::Black],
            vec![r, r, r],
        ],
        3,
        3,
    );
    let mut interpreter = Interpreter::new(program, vec![]);
    interpreter.advance();
    assert_eq!(interpreter.state.pointer_location, (0, 2));
    // red to green: hue change 2, lightness change 0, divide on an empty stack
    assert!(interpreter.state.stack.is_empty());
}
