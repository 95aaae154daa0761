use piet::command::{
    add, divide, duplicate, execute, greater, in_char, in_number, modulo, multiply, not,
    out_char, out_number, pointer, pop, push, roll, subtract, switch,
};
use piet::direction::{Chooser, Direction};
use piet::state::{Output, State};

#[test]
fn test_push() {
    let mut state = State::new(vec![]);
    push(&mut state, 1);
    assert_eq!(state.stack, vec![1]);
}

#[test]
fn test_pop() {
    let mut state = State::new(vec![]);
    state.stack.push(1);
    pop(&mut state);
    assert_eq!(state.stack, Vec::<i64>::new());
}

#[test]
fn test_add() {
    let mut state = State::new(vec![]);
    state.stack.push(1);
    state.stack.push(2);
    add(&mut state);
    assert_eq!(state.stack, vec![3]);

    let mut short_state = State::new(vec![]);
    short_state.stack.push(1);
    add(&mut short_state);
    assert_eq!(short_state.stack, vec![1]);
}

#[test]
fn test_subtract() {
    let mut state = State::new(vec![]);
    state.stack.push(1);
    state.stack.push(2);
    subtract(&mut state);
    assert_eq!(state.stack, vec![-1]);

    let mut short_state = State::new(vec![]);
    short_state.stack.push(1);
    subtract(&mut short_state);
    assert_eq!(short_state.stack, vec![1]);
}

#[test]
fn test_multiply() {
    let mut state = State::new(vec![]);
    state.stack.push(2);
    state.stack.push(3);
    multiply(&mut state);
    assert_eq!(state.stack, vec![6]);

    let mut short_state = State::new(vec![]);
    short_state.stack.push(1);
    multiply(&mut short_state);
    assert_eq!(short_state.stack, vec![1]);
}

#[test]
fn test_divide() {
    let mut state = State::new(vec![]);
    state.stack.push(7);
    state.stack.push(3);
    divide(&mut state);
    assert_eq!(state.stack, vec![2]);

    let mut ignore_zero_state = State::new(vec![]);
    ignore_zero_state.stack.push(7);
    ignore_zero_state.stack.push(0);
    divide(&mut ignore_zero_state);
    assert_eq!(ignore_zero_state.stack, vec![7, 0]);

    let mut short_state = State::new(vec![]);
    short_state.stack.push(1);
    divide(&mut short_state);
    assert_eq!(short_state.stack, vec![1]);
}

#[test]
fn test_modulo() {
    let mut state = State::new(vec![]);
    state.stack.push(7);
    state.stack.push(3);
    modulo(&mut state);
    assert_eq!(state.stack, vec![1]);

    let mut ignore_zero_state = State::new(vec![]);
    ignore_zero_state.stack.push(7);
    ignore_zero_state.stack.push(0);
    modulo(&mut ignore_zero_state);
    assert_eq!(ignore_zero_state.stack, vec![7, 0]);

    let mut short_state = State::new(vec![]);
    short_state.stack.push(1);
    modulo(&mut short_state);
    assert_eq!(short_state.stack, vec![1]);
}

#[test]
fn test_not() {
    let mut true_state = State::new(vec![]);
    true_state.stack.push(0);
    not(&mut true_state);
    assert_eq!(true_state.stack, vec![1]);

    let mut false_state = State::new(vec![]);
    false_state.stack.push(33);
    not(&mut false_state);
    assert_eq!(false_state.stack, vec![0]);
}

#[test]
fn test_greater() {
    let mut greater_state = State::new(vec![]);
    greater_state.stack.push(2);
    greater_state.stack.push(1);
    greater(&mut greater_state);
    assert_eq!(greater_state.stack, vec![1]);

    let mut lesser_state = State::new(vec![]);
    lesser_state.stack.push(1);
    lesser_state.stack.push(2);
    greater(&mut lesser_state);
    assert_eq!(lesser_state.stack, vec![0]);

    let mut short_state = State::new(vec![]);
    short_state.stack.push(1);
    greater(&mut short_state);
    assert_eq!(short_state.stack, vec![1]);
}

#[test]
fn test_pointer() {
    let mut state = State::new(vec![]);
    let initial_direction = state.pointer_direction.clone();
    state.stack.push(2);
    pointer(&mut state);
    assert_eq!(state.pointer_direction, initial_direction.next().next());

    let mut wrapping_state = State::new(vec![]);
    wrapping_state.stack.push(5);
    pointer(&mut wrapping_state);
    assert_eq!(wrapping_state.pointer_direction, initial_direction.next());

    let mut negative_state = State::new(vec![]);
    negative_state.stack.push(-3);
    pointer(&mut negative_state);
    assert_eq!(negative_state.pointer_direction, initial_direction.next());
}

#[test]
fn test_switch() {
    let mut state = State::new(vec![]);
    let initial_direction = state.chooser_direction.clone();
    state.stack.push(1);
    switch(&mut state);
    assert_eq!(state.chooser_direction, initial_direction.next());

    let mut wrapping_state = State::new(vec![]);
    wrapping_state.stack.push(4);
    switch(&mut wrapping_state);
    assert_eq!(wrapping_state.chooser_direction, initial_direction);

    wrapping_state.stack.push(-3);
    switch(&mut wrapping_state);
    assert_eq!(wrapping_state.chooser_direction, initial_direction.next());
}

#[test]
fn test_duplicate() {
    let mut state = State::new(vec![]);
    state.stack.push(1);
    duplicate(&mut state);
    assert_eq!(state.stack, vec![1, 1]);
}

#[test]
fn test_roll() {
    let simple_stack: Vec<i64> = vec![1, 2, 3, 4, 5, 6];

    let mut state = State::new(vec![]);
    state.stack.append(&mut simple_stack.clone());
    state.stack.push(3); // depth
    state.stack.push(2); // turns
    roll(&mut state);
    assert_eq!(state.stack, vec![1, 2, 3, 5, 6, 4]);

    let mut negative_turns_state = State::new(vec![]);
    negative_turns_state.stack.append(&mut simple_stack.clone());
    negative_turns_state.stack.push(3); // depth
    negative_turns_state.stack.push(-2); // turns
    roll(&mut negative_turns_state);
    assert_eq!(negative_turns_state.stack, vec![1, 2, 3, 6, 4, 5]);

    let mut negative_depth_state = State::new(vec![]);
    negative_depth_state.stack.append(&mut simple_stack.clone());
    negative_depth_state.stack.push(-1); // depth
    negative_depth_state.stack.push(2); // turns
    let negative_depth_initial = negative_depth_state.stack.clone();
    roll(&mut negative_depth_state);
    assert_eq!(negative_depth_state.stack, negative_depth_initial);

    let mut short_state = State::new(vec![]);
    short_state.stack.push(1);
    roll(&mut short_state);
    assert_eq!(short_state.stack, vec![1]);
}

#[test]
fn roll_depth_beyond_stack_is_ignored() {
    let mut state = State::new(vec![]);
    state.stack = vec![1, 2, 3, 4, 1];
    roll(&mut state);
    assert_eq!(state.stack, vec![1, 2, 3, 4, 1]);
}

#[test]
fn roll_large_turn_count_wraps() {
    let mut state = State::new(vec![]);
    state.stack = vec![1, 2, 3, 4, 5, 6, 3, 7];
    roll(&mut state);
    assert_eq!(state.stack, vec![1, 2, 3, 6, 4, 5]);
}

#[test]
fn roll_then_unroll_restores() {
    let mut state = State::new(vec![]);
    state.stack = vec![9, 8, 7, 6, 5, 4, 4, 3];
    roll(&mut state);
    state.stack.push(4);
    state.stack.push(-3);
    roll(&mut state);
    assert_eq!(state.stack, vec![9, 8, 7, 6, 5, 4]);
}

#[test]
fn modulo_sign_follows_divisor() {
    let mut state = State::new(vec![]);
    state.stack = vec![-7, 3];
    modulo(&mut state);
    assert_eq!(state.stack, vec![2]);

    let mut other = State::new(vec![]);
    other.stack = vec![7, -3];
    modulo(&mut other);
    assert_eq!(other.stack, vec![-2]);

    let mut extreme = State::new(vec![]);
    extreme.stack = vec![i64::MIN, -1];
    modulo(&mut extreme);
    assert_eq!(extreme.stack, vec![0]);
}

#[test]
fn divide_truncates_toward_zero() {
    let mut state = State::new(vec![]);
    state.stack = vec![-7, 2];
    divide(&mut state);
    assert_eq!(state.stack, vec![-3]);

    let mut overflow = State::new(vec![]);
    overflow.stack = vec![i64::MIN, -1];
    divide(&mut overflow);
    assert_eq!(overflow.stack, vec![i64::MIN, -1]);
}

#[test]
fn overflowing_arithmetic_is_ignored() {
    let mut state = State::new(vec![]);
    state.stack = vec![i64::MAX, 1];
    add(&mut state);
    assert_eq!(state.stack, vec![i64::MAX, 1]);
    state.stack = vec![i64::MAX, 2];
    multiply(&mut state);
    assert_eq!(state.stack, vec![i64::MAX, 2]);
    subtract(&mut state);
    assert_eq!(state.stack, vec![i64::MAX - 2]);
}

#[test]
fn pointer_wraps_and_turns_back_for_negatives() {
    let mut state = State::new(vec![]);
    assert_eq!(state.pointer_direction, Direction::Right);
    state.stack.push(5);
    pointer(&mut state);
    assert_eq!(state.pointer_direction, Direction::Down);

    let mut negative = State::new(vec![]);
    negative.stack.push(-3);
    pointer(&mut negative);
    assert_eq!(negative.pointer_direction, Direction::Down);
}

#[test]
fn switch_uses_absolute_value() {
    let mut state = State::new(vec![]);
    assert_eq!(state.chooser_direction, Chooser::Left);
    state.stack.push(3);
    switch(&mut state);
    assert_eq!(state.chooser_direction, Chooser::Right);

    let mut even = State::new(vec![]);
    even.stack.push(-4);
    switch(&mut even);
    assert_eq!(even.chooser_direction, Chooser::Left);
}

#[test]
fn push_then_pop_and_duplicate_then_pop_restore() {
    let mut state = State::new(vec![]);
    state.stack = vec![4, 5];
    push(&mut state, 9);
    pop(&mut state);
    assert_eq!(state.stack, vec![4, 5]);
    duplicate(&mut state);
    pop(&mut state);
    assert_eq!(state.stack, vec![4, 5]);
}

#[test]
fn not_twice_normalises() {
    let mut state = State::new(vec![]);
    state.stack.push(-12);
    not(&mut state);
    not(&mut state);
    assert_eq!(state.stack, vec![1]);
}

#[test]
fn in_number_reads_signed_decimal() {
    let mut state = State::new("  -42x7".chars().collect());
    in_number(&mut state);
    assert_eq!(state.stack, vec![-42]);
    assert_eq!(state.stdin_position, 5);

    in_number(&mut state);
    assert_eq!(state.stack, vec![-42]);
    assert_eq!(state.stdin_position, 5);
}

#[test]
fn in_number_rejects_overflow_and_empty_input() {
    let mut state = State::new("99999999999999999999".chars().collect());
    in_number(&mut state);
    assert!(state.stack.is_empty());
    assert_eq!(state.stdin_position, 0);

    let mut empty = State::new(vec![]);
    in_number(&mut empty);
    assert!(empty.stack.is_empty());

    let mut smallest = State::new("-9223372036854775808".chars().collect());
    in_number(&mut smallest);
    assert_eq!(smallest.stack, vec![i64::MIN]);
}

#[test]
fn in_char_reads_one_character() {
    let mut state = State::new("hé".chars().collect());
    in_char(&mut state);
    in_char(&mut state);
    assert_eq!(state.stack, vec![104, 233]);
    in_char(&mut state);
    assert_eq!(state.stack, vec![104, 233]);
}

#[test]
fn out_number_and_out_char_write() {
    let mut state = State::new(vec![]);
    state.stack = vec![-5, 0x1F600, 65];
    out_char(&mut state);
    out_char(&mut state);
    out_number(&mut state);
    assert_eq!(
        state.output,
        vec![Output::Char('A'), Output::Char('\u{1F600}'), Output::Number(-5)]
    );
    assert!(state.stack.is_empty());
}

#[test]
fn out_char_keeps_invalid_scalar() {
    let mut state = State::new(vec![]);
    state.stack = vec![0xD800];
    out_char(&mut state);
    assert_eq!(state.stack, vec![0xD800]);
    assert!(state.output.is_empty());

    state.stack = vec![-1];
    out_char(&mut state);
    assert_eq!(state.stack, vec![-1]);
}

#[test]
fn execute_dispatches_by_colour_change() {
    let mut state = State::new(vec![]);
    execute(&mut state, 0, 1, 7);
    execute(&mut state, 0, 1, 3);
    execute(&mut state, 1, 1, 0);
    assert_eq!(state.stack, vec![4]);
    execute(&mut state, 0, 0, 5);
    assert_eq!(state.stack, vec![4]);
    execute(&mut state, 5, 1, 0);
    assert_eq!(state.output, vec![Output::Number(4)]);
}
