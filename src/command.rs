use vstd::prelude::*;

use crate::direction::{Chooser, Direction};
use crate::state::{Output, State, StateModel};

verus! {

/// The top value of a stack (its last element).
pub open spec fn top(s: Seq<i64>) -> int {
    s[s.len() - 1] as int
}

/// The value just below the top of a stack.
pub open spec fn second(s: Seq<i64>) -> int {
    s[s.len() - 2] as int
}

/// A stack without its top two values.
pub open spec fn below_two(s: Seq<i64>) -> Seq<i64> {
    s.subrange(0, s.len() - 2)
}

pub open spec fn in_i64(x: int) -> bool {
    i64::MIN <= x <= i64::MAX
}

pub open spec fn abs(x: int) -> int {
    if x < 0 {
        -x
    } else {
        x
    }
}

/// Integer division rounded toward zero.
pub open spec fn trunc_div(a: int, b: int) -> int {
    let q = abs(a) / abs(b);
    if (a < 0) == (b < 0) {
        q
    } else {
        -q
    }
}

/// Remainder whose sign follows the divisor `b`.
pub open spec fn floor_mod(a: int, b: int) -> int {
    let r = a % b;
    if b < 0 && r != 0 {
        r + b
    } else {
        r
    }
}

/// Whether `x` is a Unicode scalar value.
pub open spec fn is_scalar(x: int) -> bool {
    (0 <= x <= 0xD7FF) || (0xE000 <= x <= 0x10FFFF)
}

/// The stack `s` with its top `depth` values rolled `turns` times: one
/// positive turn buries the top value `depth` deep, one negative turn brings
/// the value `depth` deep to the top.
pub open spec fn rolled(s: Seq<i64>, depth: int, turns: int) -> Seq<i64> {
    let k = s.len() - depth;
    Seq::new(s.len(), |i: int| if i < k { s[i] } else { s[k + (i - k - turns) % depth] })
}

/// Replaces the top two values with `v` when there are two values,
/// `allowed` holds and `v` fits; otherwise leaves the state unchanged.
pub open spec fn spec_binary(m: StateModel, v: int, allowed: bool) -> StateModel {
    if m.stack.len() >= 2 && allowed && in_i64(v) {
        m.with_stack(below_two(m.stack).push(v as i64))
    } else {
        m
    }
}

pub open spec fn spec_push(m: StateModel, size: int) -> StateModel {
    m.with_stack(m.stack.push(size as i64))
}

pub open spec fn spec_pop(m: StateModel) -> StateModel {
    if m.stack.len() >= 1 {
        m.with_stack(m.stack.drop_last())
    } else {
        m
    }
}

pub open spec fn spec_add(m: StateModel) -> StateModel {
    spec_binary(m, second(m.stack) + top(m.stack), true)
}

pub open spec fn spec_subtract(m: StateModel) -> StateModel {
    spec_binary(m, second(m.stack) - top(m.stack), true)
}

pub open spec fn spec_multiply(m: StateModel) -> StateModel {
    spec_binary(m, second(m.stack) * top(m.stack), true)
}

pub open spec fn spec_divide(m: StateModel) -> StateModel {
    spec_binary(m, trunc_div(second(m.stack), top(m.stack)), top(m.stack) != 0)
}

pub open spec fn spec_modulo(m: StateModel) -> StateModel {
    spec_binary(m, floor_mod(second(m.stack), top(m.stack)), top(m.stack) != 0)
}

pub open spec fn spec_not(m: StateModel) -> StateModel {
    if m.stack.len() >= 1 {
        m.with_stack(m.stack.drop_last().push(if top(m.stack) == 0 { 1i64 } else { 0i64 }))
    } else {
        m
    }
}

pub open spec fn spec_greater(m: StateModel) -> StateModel {
    spec_binary(m, if second(m.stack) > top(m.stack) { 1 } else { 0 }, true)
}

pub open spec fn spec_pointer(m: StateModel) -> StateModel {
    if m.stack.len() >= 1 {
        StateModel {
            stack: m.stack.drop_last(),
            pointer_direction: m.pointer_direction.rotated(top(m.stack) % 4),
            ..m
        }
    } else {
        m
    }
}

pub open spec fn spec_switch(m: StateModel) -> StateModel {
    if m.stack.len() >= 1 {
        StateModel {
            stack: m.stack.drop_last(),
            chooser_direction: m.chooser_direction.toggled((abs(top(m.stack)) % 2) as nat),
            ..m
        }
    } else {
        m
    }
}

pub open spec fn spec_duplicate(m: StateModel) -> StateModel {
    if m.stack.len() >= 1 {
        m.with_stack(m.stack.push(top(m.stack) as i64))
    } else {
        m
    }
}

pub open spec fn spec_roll(m: StateModel) -> StateModel {
    if m.stack.len() >= 2 && 0 <= second(m.stack) <= m.stack.len() - 2 {
        m.with_stack(rolled(below_two(m.stack), second(m.stack), top(m.stack)))
    } else {
        m
    }
}

pub open spec fn spec_in_char(m: StateModel) -> StateModel {
    if m.stdin_position < m.stdin.len() {
        StateModel {
            stack: m.stack.push((m.stdin[m.stdin_position as int] as u32) as i64),
            stdin_position: (m.stdin_position + 1) as usize,
            ..m
        }
    } else {
        m
    }
}

pub open spec fn spec_out_number(m: StateModel) -> StateModel {
    if m.stack.len() >= 1 {
        StateModel {
            stack: m.stack.drop_last(),
            output: m.output.push(Output::Number(top(m.stack) as i64)),
            ..m
        }
    } else {
        m
    }
}

pub open spec fn spec_out_char(m: StateModel) -> StateModel {
    if m.stack.len() >= 1 && is_scalar(top(m.stack)) {
        StateModel {
            stack: m.stack.drop_last(),
            output: m.output.push(Output::Char(top(m.stack) as char)),
            ..m
        }
    } else {
        m
    }
}

/// The effect of the command that a (hue change, lightness change) pair
/// selects:
///
/// | hue \ lightness | 0         | 1          | 2          |
/// |-----------------|-----------|------------|------------|
/// | 0               | (none)    | push       | pop        |
/// | 1               | add       | subtract   | multiply   |
/// | 2               | divide    | modulo     | not        |
/// | 3               | greater   | pointer    | switch     |
/// | 4               | duplicate | roll       | in_number  |
/// | 5               | in_char   | out_number | out_char   |
pub open spec fn spec_execute(m: StateModel, hue_change: u8, lightness_change: u8, size: int) -> StateModel {
    match (hue_change, lightness_change) {
        (0, 1) => spec_push(m, size),
        (0, 2) => spec_pop(m),
        (1, 0) => spec_add(m),
        (1, 1) => spec_subtract(m),
        (1, 2) => spec_multiply(m),
        (2, 0) => spec_divide(m),
        (2, 1) => spec_modulo(m),
        (2, 2) => spec_not(m),
        (3, 0) => spec_greater(m),
        (3, 1) => spec_pointer(m),
        (3, 2) => spec_switch(m),
        (4, 0) => spec_duplicate(m),
        (4, 1) => spec_roll(m),
        (4, 2) => spec_in_number(m),
        (5, 0) => spec_in_char(m),
        (5, 1) => spec_out_number(m),
        (5, 2) => spec_out_char(m),
        _ => m,
    }
}

/// Whether the selected command can be carried out: enough operands, a
/// non-zero divisor, a result that fits, a roll depth within the stack,
/// input to read, a character to write.
pub open spec fn ready(m: StateModel, hue_change: u8, lightness_change: u8) -> bool {
    let n = m.stack.len();
    let a = second(m.stack);
    let b = top(m.stack);
    match (hue_change, lightness_change) {
        (0, 0) => true,
        (0, 1) => true,
        (1, 0) => n >= 2 && in_i64(a + b),
        (1, 1) => n >= 2 && in_i64(a - b),
        (1, 2) => n >= 2 && in_i64(a * b),
        (2, 0) => n >= 2 && b != 0 && in_i64(trunc_div(a, b)),
        (2, 1) => n >= 2 && b != 0,
        (3, 0) => n >= 2,
        (4, 1) => n >= 2 && 0 <= a <= n - 2,
        (4, 2) => number_at(m.stdin, m.stdin_position as int) is Some,
        (5, 0) => m.stdin_position < m.stdin.len(),
        (5, 2) => n >= 1 && is_scalar(b),
        _ => n >= 1,
    }
}

/// Relies on `char::from_u32`, which returns the character whose scalar
/// value is `v`, and `None` when `v` is not a Unicode scalar value.
#[verifier::external_body]
fn char_from_u32(v: u32) -> (r: Option<char>)
    ensures
        is_scalar(v as int) ==> r == Some(v as char),
        !is_scalar(v as int) ==> r is None,
{
    char::from_u32(v)
}

/// Whether `c` is skipped before a number is read.
pub open spec fn is_space(c: char) -> bool {
    c == ' ' || c == '\t' || c == '\n' || c == '\r'
}

pub open spec fn is_digit(c: char) -> bool {
    '0' <= c <= '9'
}

/// Number of consecutive spaces in `s` from index `i` on.
pub open spec fn spaces_from(s: Seq<char>, i: int) -> nat
    decreases s.len() - i,
{
    if 0 <= i < s.len() && is_space(s[i]) {
        1 + spaces_from(s, i + 1)
    } else {
        0
    }
}

/// Number of consecutive decimal digits in `s` from index `i` on.
pub open spec fn digits_from(s: Seq<char>, i: int) -> nat
    decreases s.len() - i,
{
    if 0 <= i < s.len() && is_digit(s[i]) {
        1 + digits_from(s, i + 1)
    } else {
        0
    }
}

/// The value of the `n` decimal digits of `s` that start at index `i`.
pub open spec fn digits_value(s: Seq<char>, i: int, n: nat) -> int
    decreases n,
{
    if n == 0 {
        0
    } else {
        digits_value(s, i, (n - 1) as nat) * 10 + (s[i + n - 1] as int - '0' as int)
    }
}

/// The signed decimal integer that `s` holds at index `i`, after any
/// spaces, with the index just past it: an optional `+` or `-` followed by
/// at least one digit, whose value fits in an `i64`.
pub open spec fn number_at(s: Seq<char>, i: int) -> Option<(i64, int)> {
    let p = i + spaces_from(s, i);
    let signed = p < s.len() && (s[p] == '-' || s[p] == '+');
    let negative = p < s.len() && s[p] == '-';
    let start = if signed { p + 1 } else { p };
    let n = digits_from(s, start);
    let magnitude = digits_value(s, start, n);
    let v = if negative { -magnitude } else { magnitude };
    if n > 0 && in_i64(v) {
        Some((v as i64, start + n))
    } else {
        None
    }
}

pub open spec fn spec_in_number(m: StateModel) -> StateModel {
    match number_at(m.stdin, m.stdin_position as int) {
        Some((v, next)) => StateModel {
            stack: m.stack.push(v),
            stdin_position: next as usize,
            ..m
        },
        None => m,
    }
}

/// A longer run of digits is worth at least as much as a shorter one.
proof fn lemma_digits_value_grows(s: Seq<char>, i: int, k: nat, n: nat)
    requires
        k <= n,
        forall|j: int| i <= j < i + n ==> #[trigger] is_digit(s[j]),
    ensures
        0 <= digits_value(s, i, k) <= digits_value(s, i, n),
    decreases n,
{
    if k < n {
        lemma_digits_value_grows(s, i, k, (n - 1) as nat);
        assert(is_digit(s[i + n - 1]));
    } else if n > 0 {
        lemma_digits_value_grows(s, i, (n - 1) as nat, (n - 1) as nat);
        assert(is_digit(s[i + n - 1]));
    }
}

/// Every index inside the run of digits starting at `i` holds a digit.
proof fn lemma_digits_run(s: Seq<char>, i: int, j: int)
    requires
        0 <= i <= j < i + digits_from(s, i),
    ensures
        is_digit(s[j]),
    decreases j - i,
{
    if j > i {
        lemma_digits_run(s, i + 1, j);
    }
}

/// Replaces the top two values of a stack with `v`.
fn replace_top_two(stack: &mut Vec<i64>, v: i64)
    requires
        old(stack)@.len() >= 2,
    ensures
        final(stack)@ == below_two(old(stack)@).push(v),
{
    stack.pop();
    stack.pop();
    stack.push(v);
    assert(final(stack)@ =~= below_two(old(stack)@).push(v));
}

/// Rolls the top `depth` values of `stack` by `turns`.
fn roll_stack(stack: &mut Vec<i64>, depth: usize, turns: i64)
    requires
        0 < depth <= old(stack)@.len(),
        depth <= i64::MAX,
    ensures
        final(stack)@ == rolled(old(stack)@, depth as int, turns as int),
{
    let ghost base = stack@;
    let len = stack.len();
    let k = len - depth;
    let shift = turns.checked_rem_euclid(depth as i64).unwrap() as usize;
    let mut window: Vec<i64> = Vec::new();
    let mut i: usize = 0;
    while i < depth
        invariant
            0 <= i <= depth,
            k + depth == len == stack@.len(),
            stack@ == base,
            window@ == base.subrange(k as int, k + i),
        decreases depth - i,
    {
        window.push(stack[k + i]);
        i = i + 1;
        assert(window@ =~= base.subrange(k as int, k + i));
    }
    stack.truncate(k);
    let mut j: usize = 0;
    while j < depth
        invariant
            0 <= j <= depth,
            k + depth == len == base.len(),
            0 <= shift < depth,
            shift == (turns as int) % (depth as int),
            window@ == base.subrange(k as int, len as int),
            stack@.len() == k + j,
            forall|x: int| 0 <= x < k ==> stack@[x] == base[x],
            forall|x: int|
                k <= x < k + j ==> stack@[x] == base[k + (x - k - turns) % (depth as int)],
        decreases depth - j,
    {
        let src = if j >= shift {
            j - shift
        } else {
            j + (depth - shift)
        };
        proof {
            let d = depth as int;
            vstd::arithmetic::div_mod::lemma_sub_mod_noop_right(j as int, turns as int, d);
            if j >= shift {
                vstd::arithmetic::div_mod::lemma_small_mod((j - shift) as nat, d as nat);
            } else {
                vstd::arithmetic::div_mod::lemma_mod_add_multiples_vanish(j - shift, d);
                vstd::arithmetic::div_mod::lemma_small_mod((d + j - shift) as nat, d as nat);
            }
            assert(src as int == (j - turns) % d);
        }
        stack.push(window[src]);
        j = j + 1;
    }
    assert(stack@ =~= rolled(base, depth as int, turns as int));
}

/// Pushes the value of the colour block just exited on to the stack.
pub fn push(state: &mut State, current_region_size: usize)
    requires
        current_region_size <= i64::MAX,
    ensures
        final(state)@ == spec_push(old(state)@, current_region_size as int),
{
    state.stack.push(current_region_size as i64);
}

/// Pops the top value off the stack and discards it.
pub fn pop(state: &mut State)
    ensures
        final(state)@ == spec_pop(old(state)@),
{
    state.stack.pop();
}

/// Replaces the top two values with their sum.
pub fn add(state: &mut State)
    ensures
        final(state)@ == spec_add(old(state)@),
{
    let len = state.stack.len();
    if len >= 2 {
        if let Some(v) = state.stack[len - 2].checked_add(state.stack[len - 1]) {
            replace_top_two(&mut state.stack, v);
        }
    }
}

/// Replaces the top two values with the second value minus the top value.
pub fn subtract(state: &mut State)
    ensures
        final(state)@ == spec_subtract(old(state)@),
{
    let len = state.stack.len();
    if len >= 2 {
        if let Some(v) = state.stack[len - 2].checked_sub(state.stack[len - 1]) {
            replace_top_two(&mut state.stack, v);
        }
    }
}

/// Replaces the top two values with their product.
pub fn multiply(state: &mut State)
    ensures
        final(state)@ == spec_multiply(old(state)@),
{
    let len = state.stack.len();
    if len >= 2 {
        if let Some(v) = state.stack[len - 2].checked_mul(state.stack[len - 1]) {
            replace_top_two(&mut state.stack, v);
        }
    }
}

/// Replaces the top two values with the second value divided by the top
/// value, rounded toward zero. Division by zero is ignored.
pub fn divide(state: &mut State)
    ensures
        final(state)@ == spec_divide(old(state)@),
{
    let len = state.stack.len();
    if len >= 2 {
        if let Some(v) = state.stack[len - 2].checked_div(state.stack[len - 1]) {
            replace_top_two(&mut state.stack, v);
        }
    }
}

/// Replaces the top two values with the second value modulo the top value;
/// the result has the sign of the divisor (the top value). A zero divisor
/// is ignored.
pub fn modulo(state: &mut State)
    ensures
        final(state)@ == spec_modulo(old(state)@),
{
    let len = state.stack.len();
    if len >= 2 {
        let a = state.stack[len - 2];
        let b = state.stack[len - 1];
        if b == -1 {
            replace_top_two(&mut state.stack, 0);
        } else if let Some(r) = a.checked_rem_euclid(b) {
            let v = if b < 0 && r != 0 {
                r + b
            } else {
                r
            };
            replace_top_two(&mut state.stack, v);
        }
    }
}

/// Replaces the top value with 1 if it is zero and with 0 otherwise.
pub fn not(state: &mut State)
    ensures
        final(state)@ == spec_not(old(state)@),
{
    if let Some(top) = state.stack.pop() {
        state.stack.push(if top == 0 { 1 } else { 0 });
    }
}

/// Replaces the top two values with 1 if the second value is greater than
/// the top value, and with 0 otherwise.
pub fn greater(state: &mut State)
    ensures
        final(state)@ == spec_greater(old(state)@),
{
    let len = state.stack.len();
    if len >= 2 {
        let v = if state.stack[len - 2] > state.stack[len - 1] { 1 } else { 0 };
        replace_top_two(&mut state.stack, v);
    }
}

/// Pops the top value and rotates the direction pointer clockwise that many
/// steps (counter-clockwise if negative).
pub fn pointer(state: &mut State)
    ensures
        final(state)@ == spec_pointer(old(state)@),
{
    if let Some(top) = state.stack.pop() {
        let steps = top.checked_rem_euclid(4).unwrap();
        let start = state.pointer_direction;
        let mut direction = start;
        let mut i: i64 = 0;
        while i < steps
            invariant
                0 <= i <= steps < 4,
                direction == start.rotated(i as int),
            decreases steps - i,
        {
            direction = direction.next();
            i = i + 1;
        }
        state.pointer_direction = direction;
    }
}

/// Pops the top value and toggles the codel chooser that many times (its
/// absolute value if negative).
pub fn switch(state: &mut State)
    ensures
        final(state)@ == spec_switch(old(state)@),
{
    if let Some(top) = state.stack.pop() {
        if top.checked_rem_euclid(2).unwrap() == 1 {
            state.chooser_direction = state.chooser_direction.next();
        }
    }
}

/// Pushes a copy of the top value.
pub fn duplicate(state: &mut State)
    ensures
        final(state)@ == spec_duplicate(old(state)@),
{
    let len = state.stack.len();
    if len >= 1 {
        let top = state.stack[len - 1];
        state.stack.push(top);
    }
}

/// Pops the top two values, `turns` (the top) and then `depth`, and rolls
/// the `depth` values below them `turns` times. A negative depth, or one
/// greater than what is left on the stack, leaves the stack unchanged.
pub fn roll(state: &mut State)
    ensures
        final(state)@ == spec_roll(old(state)@),
{
    let len = state.stack.len();
    if len >= 2 {
        let turns = state.stack[len - 1];
        let depth = state.stack[len - 2];
        if depth >= 0 && (depth as u64) <= ((len - 2) as u64) {
            state.stack.pop();
            state.stack.pop();
            if depth > 0 {
                roll_stack(&mut state.stack, depth as usize, turns);
            }
            assert(state.stack@ =~= rolled(below_two(old(state).stack@), depth as int, turns as int));
        }
    }
}

/// Reads one character of input and pushes its Unicode scalar value.
/// Ignored when the input is exhausted.
pub fn in_char(state: &mut State)
    requires
        old(state).wf(),
    ensures
        final(state).wf(),
        final(state)@ == spec_in_char(old(state)@),
{
    if state.stdin_position < state.stdin.len() {
        let c = state.stdin[state.stdin_position];
        state.stack.push((c as u32) as i64);
        state.stdin_position = state.stdin_position + 1;
    }
}

/// Reads a signed decimal integer from the input, after any spaces, and
/// pushes it. When the input holds no such number, or it does not fit in an
/// `i64`, nothing is read and the stack is unchanged.
pub fn in_number(state: &mut State)
    requires
        old(state).wf(),
    ensures
        final(state).wf(),
        final(state)@ == spec_in_number(old(state)@),
{
    let ghost s = state.stdin@;
    let len = state.stdin.len();
    let mut p = state.stdin_position;
    while p < len && (state.stdin[p] == ' ' || state.stdin[p] == '\t' || state.stdin[p] == '\n'
        || state.stdin[p] == '\r')
        invariant
            s == state.stdin@,
            len == s.len(),
            state@ == old(state)@,
            old(state).stdin_position <= p <= len,
            spaces_from(s, old(state).stdin_position as int) == (p - old(state).stdin_position)
                + spaces_from(s, p as int),
        decreases len - p,
    {
        p = p + 1;
    }
    let negative = p < len && state.stdin[p] == '-';
    let start = if p < len && (state.stdin[p] == '-' || state.stdin[p] == '+') {
        p + 1
    } else {
        p
    };
    let mut q = start;
    let mut v: i64 = 0;
    while q < len && '0' <= state.stdin[q] && state.stdin[q] <= '9'
        invariant
            s == state.stdin@,
            len == s.len(),
            start <= q <= len,
            state@ == old(state)@,
            state.wf(),
            p == old(state).stdin_position + spaces_from(s, old(state).stdin_position as int),
            negative == (p < len && s[p as int] == '-'),
            start == (if p < len && (s[p as int] == '-' || s[p as int] == '+') {
                p + 1
            } else {
                p as int
            }),
            digits_from(s, start as int) == (q - start) + digits_from(s, q as int),
            forall|j: int| start <= j < q ==> #[trigger] is_digit(s[j]),
            v == (if negative { -digits_value(s, start as int, (q - start) as nat) } else {
                digits_value(s, start as int, (q - start) as nat)
            }),
        decreases len - q,
    {
        let d = ((state.stdin[q] as u32) - ('0' as u32)) as i64;
        let next = match v.checked_mul(10) {
            Some(t) => if negative {
                t.checked_sub(d)
            } else {
                t.checked_add(d)
            },
            None => None,
        };
        match next {
            Some(w) => {
                v = w;
                q = q + 1;
            },
            None => {
                proof {
                    let n = digits_from(s, start as int);
                    let k = (q + 1 - start) as nat;
                    assert(is_digit(s[q as int]));
                    assert(digits_from(s, q as int) >= 1);
                    assert(k <= n);
                    lemma_digits_value_grows(s, start as int, (k - 1) as nat, (k - 1) as nat);
                    assert(d == s[q as int] as int - '0' as int);
                    assert(digits_value(s, start as int, k) == digits_value(
                        s,
                        start as int,
                        (k - 1) as nat,
                    ) * 10 + (s[q as int] as int - '0' as int));
                    assert(!in_i64(
                        if negative {
                            -digits_value(s, start as int, k)
                        } else {
                            digits_value(s, start as int, k)
                        },
                    ));
                    assert forall|j: int| start <= j < start + n implies #[trigger] is_digit(s[j]) by {
                        lemma_digits_run(s, start as int, j);
                    }
                    lemma_digits_value_grows(s, start as int, (q + 1 - start) as nat, n);
                }
                return;
            },
        }
    }
    if q > start {
        state.stack.push(v);
        state.stdin_position = q;
    }
}

/// Pops the top value and writes it as a decimal number.
pub fn out_number(state: &mut State)
    ensures
        final(state)@ == spec_out_number(old(state)@),
{
    if let Some(top) = state.stack.pop() {
        state.output.push(Output::Number(top));
    }
}

/// Pops the top value and writes it as a character. When the value is not
/// a Unicode scalar value, nothing is popped or written.
pub fn out_char(state: &mut State)
    ensures
        final(state)@ == spec_out_char(old(state)@),
{
    let len = state.stack.len();
    if len >= 1 {
        let top = state.stack[len - 1];
        if 0 <= top && top <= 0x10FFFF {
            if let Some(c) = char_from_u32(top as u32) {
                state.stack.pop();
                state.output.push(Output::Char(c));
            }
        }
    }
}

/// Selects a command from the change in hue and lightness between two
/// colour blocks and carries it out. A command that cannot be carried out
/// (too few values on the stack, a division by zero, ...) is ignored.
pub fn execute(state: &mut State, hue_change: u8, lightness_change: u8, current_region_size: usize)
    requires
        old(state).wf(),
        hue_change < 6,
        lightness_change < 3,
        current_region_size <= i64::MAX,
    ensures
        final(state).wf(),
        final(state)@ == spec_execute(
            old(state)@,
            hue_change,
            lightness_change,
            current_region_size as int,
        ),
{
    match (hue_change, lightness_change) {
        (0, 0) => {},
        (0, 1) => push(state, current_region_size),
        (0, 2) => pop(state),
        (1, 0) => crate::command::add(state),
        (1, 1) => subtract(state),
        (1, 2) => multiply(state),
        (2, 0) => divide(state),
        (2, 1) => modulo(state),
        (2, 2) => not(state),
        (3, 0) => greater(state),
        (3, 1) => pointer(state),
        (3, 2) => switch(state),
        (4, 0) => duplicate(state),
        (4, 1) => roll(state),
        (4, 2) => in_number(state),
        (5, 0) => in_char(state),
        (5, 1) => out_number(state),
        _ => out_char(state),
    }
}

/// A command that cannot be carried out changes nothing: no operand is
/// consumed, and the stack, pointer, chooser, input and output stay as they
/// were.
pub proof fn lemma_unready_command_is_ignored(
    m: StateModel,
    hue_change: u8,
    lightness_change: u8,
    size: int,
)
    requires
        hue_change < 6,
        lightness_change < 3,
        !ready(m, hue_change, lightness_change),
    ensures
        spec_execute(m, hue_change, lightness_change, size) == m,
{
}

/// Pushing a value and popping it again restores the stack.
pub proof fn lemma_push_then_pop(m: StateModel, size: int)
    ensures
        spec_pop(spec_push(m, size)) == m,
{
    assert(m.stack.push(size as i64).drop_last() =~= m.stack);
}

/// Duplicating the top value and popping it again restores the stack.
pub proof fn lemma_duplicate_then_pop(m: StateModel)
    ensures
        spec_pop(spec_duplicate(m)) == m,
{
    if m.stack.len() >= 1 {
        assert(m.stack.push(top(m.stack) as i64).drop_last() =~= m.stack);
    }
}

/// Applying `not` twice turns any non-zero top value into 1 and leaves 0 as 0.
pub proof fn lemma_not_not(m: StateModel)
    requires
        m.stack.len() >= 1,
    ensures
        spec_not(spec_not(m)).stack == m.stack.drop_last().push(
            if top(m.stack) != 0 { 1i64 } else { 0i64 },
        ),
{
    let once = m.stack.drop_last().push(if top(m.stack) == 0 { 1i64 } else { 0i64 });
    assert(once.drop_last() =~= m.stack.drop_last());
}

/// The state `m` with `depth` and then `turns` pushed on its stack.
pub open spec fn with_roll_operands(m: StateModel, depth: i64, turns: i64) -> StateModel {
    m.with_stack(m.stack.push(depth).push(turns))
}

/// A roll to depth `d` by `t` turns, followed by a roll to the same depth by
/// `-t` turns, restores the stack.
pub proof fn lemma_roll_then_unroll(m: StateModel, d: i64, t: i64)
    requires
        0 <= d <= m.stack.len(),
        t != i64::MIN,
    ensures
        ({
            let rolled_once = spec_roll(with_roll_operands(m, d, t));
            spec_roll(with_roll_operands(rolled_once, d, -t as i64))
        }) == m,
{
    let s = m.stack;
    let m1 = with_roll_operands(m, d, t);
    assert(below_two(m1.stack) =~= s);
    let r1 = rolled(s, d as int, t as int);
    let m2 = with_roll_operands(spec_roll(m1), d, -t as i64);
    assert(below_two(m2.stack) =~= r1);
    let r2 = rolled(r1, d as int, -t as int);
    assert forall|i: int| 0 <= i < s.len() implies r2[i] == s[i] by {
        let k = s.len() - d;
        if i >= k {
            let j = (i - k + t) % (d as int);
            vstd::arithmetic::div_mod::lemma_mod_bound(i - k + t, d as int);
            vstd::arithmetic::div_mod::lemma_sub_mod_noop(i - k + t, t as int, d as int);
            vstd::arithmetic::div_mod::lemma_mod_bound(i - k - t, d as int);
            vstd::arithmetic::div_mod::lemma_small_mod((i - k) as nat, d as nat);
            vstd::arithmetic::div_mod::lemma_small_mod(j as nat, d as nat);
            vstd::arithmetic::div_mod::lemma_sub_mod_noop(j, t as int, d as int);
        }
    }
    assert(r2 =~= s);
}

/// The state `m` with `a` and then `b` pushed on its stack.
pub open spec fn with_operands(m: StateModel, a: i64, b: i64) -> StateModel {
    m.with_stack(m.stack.push(a).push(b))
}

/// `add` and `multiply` give the same stack whichever order their operands
/// were pushed in, whenever the result fits; `subtract` and `divide` take the
/// top value as their right operand.
pub proof fn lemma_operand_order(m: StateModel, a: i64, b: i64)
    ensures
        in_i64(a + b) ==> spec_add(with_operands(m, a, b)) == spec_add(with_operands(m, b, a)),
        in_i64(a * b) ==> spec_multiply(with_operands(m, a, b)) == spec_multiply(
            with_operands(m, b, a),
        ),
        in_i64(a - b) ==> spec_subtract(with_operands(m, a, b)).stack == m.stack.push(
            (a - b) as i64,
        ),
        b != 0 && in_i64(trunc_div(a as int, b as int)) ==> spec_divide(
            with_operands(m, a, b),
        ).stack == m.stack.push(trunc_div(a as int, b as int) as i64),
{
    let ab = m.stack.push(a).push(b);
    let ba = m.stack.push(b).push(a);
    assert(top(ab) == b && second(ab) == a);
    assert(top(ba) == a && second(ba) == b);
    assert(below_two(ab) =~= m.stack);
    assert(below_two(ba) =~= m.stack);
    assert(a * b == b * a) by (nonlinear_arith);
}

} // verus!
