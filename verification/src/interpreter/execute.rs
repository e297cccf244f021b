//! Executing commands and running a program. Reading and printing are left to
//! the caller: executing a command that reads or prints returns a request.

use vstd::prelude::*;

use crate::interpreter::commands::{self, operands, popped, roll_ok, rolled, top_or, floor_div};
use crate::interpreter::step::dp_number;
use crate::interpreter::{
    CodeState, DP, Interpreter, InterpreterView, PietCommand, PointerAspect, ProcessStateOutcome,
    CC, clockwise_n, flipped, modified, rotated,
};

verus! {

/// What a command asks of the world outside.
#[derive(Debug, Clone, Copy, PartialEq, Eq, Structural)]
pub enum IoRequest {
    /// Nothing.
    Nothing,
    /// Read a number; if one is read, give it to `input_num`.
    ReadNum,
    /// Read a character; give it to `input_char`.
    ReadChar,
    /// Print this number.
    WriteNum(i64),
    /// Print this character.
    WriteChar(char),
}

/// The commands that can run on a stack: those that would overflow, divide
/// by zero or roll a negative depth cannot.
pub open spec fn command_ok(s: Seq<i64>, command: Option<PietCommand>) -> bool {
    match command {
        Some(PietCommand::Add) => i64::MIN <= operands(s, 0, 0).0 + operands(s, 0, 0).1 <= i64::MAX,
        Some(PietCommand::Subtract) => i64::MIN <= operands(s, 0, 0).1 - operands(s, 0, 0).0 <= i64::MAX,
        Some(PietCommand::Multiply) => i64::MIN <= operands(s, 0, 0).0 * operands(s, 0, 0).1 <= i64::MAX,
        Some(PietCommand::Divide) | Some(PietCommand::Modulo) => operands(s, 1, 0).0 != 0
            && !(operands(s, 1, 0).1 == i64::MIN && operands(s, 1, 0).0 == -1),
        Some(PietCommand::Roll) => roll_ok(s),
        _ => true,
    }
}

/// The state after executing `command`.
pub open spec fn executed(st: InterpreterView, command: Option<PietCommand>) -> InterpreterView {
    let s = st.stack;
    match command {
        None => st,
        Some(c) => match c {
            PietCommand::Push(size) => InterpreterView { stack: s.push(size as i64), ..st },
            PietCommand::Pop => InterpreterView { stack: popped(s), ..st },
            PietCommand::Add => InterpreterView { stack: operands(s, 0, 0).2.push((operands(s, 0, 0).0 + operands(s, 0, 0).1) as i64), ..st },
            PietCommand::Subtract => InterpreterView { stack: operands(s, 0, 0).2.push((operands(s, 0, 0).1 - operands(s, 0, 0).0) as i64), ..st },
            PietCommand::Multiply => InterpreterView { stack: operands(s, 0, 0).2.push((operands(s, 0, 0).0 * operands(s, 0, 0).1) as i64), ..st },
            PietCommand::Divide => InterpreterView { stack: operands(s, 1, 0).2.push(
                floor_div(operands(s, 1, 0).1 as int, operands(s, 1, 0).0 as int) as i64), ..st },
            PietCommand::Modulo => InterpreterView { stack: operands(s, 1, 0).2.push((operands(s, 1, 0).1 % operands(s, 1, 0).0) as i64), ..st },
            PietCommand::Not => InterpreterView { stack: popped(s).push(if top_or(s, 0) == 0 { 1 } else { 0 }), ..st },
            PietCommand::Greater => InterpreterView { stack: operands(s, 1, 0).2.push(
                if operands(s, 1, 0).0 < operands(s, 1, 0).1 { 1 } else { 0 }), ..st },
            PietCommand::Pointer => InterpreterView { stack: popped(s), dp: rotated(st, top_or(s, 0) as int), ..st },
            PietCommand::Switch => InterpreterView { stack: popped(s),
                cc: if top_or(s, 0) % 2 == 0 { st.cc } else { flipped(st.cc) }, ..st },
            PietCommand::Duplicate => InterpreterView { stack: popped(s).push(top_or(s, 0)).push(top_or(s, 0)), ..st },
            PietCommand::Roll => InterpreterView { stack: rolled(s), ..st },
            PietCommand::InputNum | PietCommand::InputChar => st,
            PietCommand::OutputNum | PietCommand::OutputChar => InterpreterView { stack: popped(s), ..st },
        },
    }
}

/// What executing `command` asks of the world outside; for `OutputChar`, a
/// character to print exactly when the code point is a Unicode scalar value.
pub open spec fn io_of(s: Seq<i64>, command: Option<PietCommand>, io: IoRequest) -> bool {
    match command {
        Some(PietCommand::InputNum) => io == IoRequest::ReadNum,
        Some(PietCommand::InputChar) => io == IoRequest::ReadChar,
        Some(PietCommand::OutputNum) => io == IoRequest::WriteNum(top_or(s, 0)),
        Some(PietCommand::OutputChar) => {
            let v = top_or(s, 0);
            if 0 <= v < 0xD800 || (0xE000 <= v && v < 0x110000) {
                io matches IoRequest::WriteChar(ch) && ch as u32 == v
            } else {
                io == IoRequest::Nothing
            }
        },
        _ => io == IoRequest::Nothing,
    }
}

/// The bookkeeping of a run: steps done, consecutive changes of the direction
/// pointer, which pointer to change next, and whether the run is over.
pub struct RunState {
    heartbeats: i64,
    dp_counter: i64,
    pointer_aspect: PointerAspect,
    finished: bool,
}

impl RunState {
    pub closed spec fn spec_heartbeats(self) -> i64 {
        self.heartbeats
    }

    pub closed spec fn spec_dp_counter(self) -> i64 {
        self.dp_counter
    }

    pub closed spec fn spec_pointer_aspect(self) -> PointerAspect {
        self.pointer_aspect
    }

    pub closed spec fn spec_finished(self) -> bool {
        self.finished
    }

    /// The start of a run.
    pub fn new() -> (r: RunState)
        ensures
            r.spec_heartbeats() == 0,
            r.spec_dp_counter() == 0,
            r.spec_pointer_aspect() == PointerAspect::CC,
            !r.spec_finished(),
    {
        RunState { heartbeats: 0, dp_counter: 0, pointer_aspect: PointerAspect::CC, finished: false }
    }

    /// Whether the run goes on: it is not over and fewer than
    /// `max_heartbeats` steps are done.
    pub fn running(&self, max_heartbeats: i64) -> (b: bool)
        ensures
            b == (!self.spec_finished() && self.spec_heartbeats() < max_heartbeats),
    {
        !self.finished && self.heartbeats < max_heartbeats
    }

    /// The pointer to change if the next step is blocked.
    pub fn pointer_aspect(&self) -> (a: PointerAspect)
        ensures
            a == self.spec_pointer_aspect(),
    {
        self.pointer_aspect
    }

    /// The number of steps done.
    pub fn heartbeats(&self) -> (h: i64)
        ensures
            h == self.spec_heartbeats(),
    {
        self.heartbeats
    }

    /// Records the outcome of a step: a move counts a step and resets the
    /// pointer changes; a blocked block first flips the codel chooser, then
    /// turns the direction pointer; after four turns in a row, or at the end
    /// of the program, the run is over.
    pub fn record(&mut self, outcome: ProcessStateOutcome)
        requires
            old(self).spec_heartbeats() < i64::MAX,
            0 <= old(self).spec_dp_counter() <= 3,
        ensures
            0 <= final(self).spec_dp_counter() <= 4,
            match outcome {
                ProcessStateOutcome::Continue => final(self).spec_dp_counter() == 0
                    && final(self).spec_pointer_aspect() == PointerAspect::CC
                    && final(self).spec_heartbeats() == old(self).spec_heartbeats() + 1
                    && final(self).spec_finished() == old(self).spec_finished(),
                ProcessStateOutcome::ModifyPointer(PointerAspect::CC) => final(self).spec_pointer_aspect() == PointerAspect::DP
                    && final(self).spec_dp_counter() == old(self).spec_dp_counter()
                    && final(self).spec_heartbeats() == old(self).spec_heartbeats()
                    && final(self).spec_finished() == old(self).spec_finished(),
                ProcessStateOutcome::ModifyPointer(_) => final(self).spec_dp_counter() == old(self).spec_dp_counter() + 1
                    && final(self).spec_heartbeats() == old(self).spec_heartbeats()
                    && (final(self).spec_finished() == (old(self).spec_finished() || old(self).spec_dp_counter() + 1 > 3))
                    && (old(self).spec_dp_counter() + 1 <= 3 ==> final(self).spec_pointer_aspect() == PointerAspect::CC)
                    && (old(self).spec_dp_counter() + 1 > 3 ==> final(self).spec_pointer_aspect() == old(self).spec_pointer_aspect()),
                ProcessStateOutcome::Terminate => final(self).spec_finished()
                    && final(self).spec_heartbeats() == old(self).spec_heartbeats()
                    && final(self).spec_dp_counter() == old(self).spec_dp_counter()
                    && final(self).spec_pointer_aspect() == old(self).spec_pointer_aspect(),
            },
    {
        match outcome {
            ProcessStateOutcome::Continue => {
                self.dp_counter = 0;
                self.pointer_aspect = PointerAspect::CC;
                self.heartbeats = self.heartbeats + 1;
            },
            ProcessStateOutcome::ModifyPointer(PointerAspect::CC) => {
                self.pointer_aspect = PointerAspect::DP;
            },
            ProcessStateOutcome::ModifyPointer(_) => {
                self.dp_counter = self.dp_counter + 1;
                if self.dp_counter > 3 {
                    self.finished = true;
                } else {
                    self.pointer_aspect = PointerAspect::CC;
                }
            },
            ProcessStateOutcome::Terminate => {
                self.finished = true;
            },
        }
    }
}

impl Interpreter {
    /// Whether `command` can run on the interpreter's stack (see `command_ok`).
    pub fn can_execute(&self, command: Option<PietCommand>) -> (b: bool)
        ensures
            b == command_ok(self@.stack, command),
    {
        let s = &self.stack;
        let n = s.len();
        let x0: i64 = if n > 0 { s[n - 1] } else { 0 };
        let y0: i64 = if n > 1 { s[n - 2] } else { 0 };
        let x1: i64 = if n > 0 { s[n - 1] } else { 1 };
        proof {
            if n > 1 {
                assert(popped(s@).last() == s@[n - 2]);
            }
        }
        match command {
            Some(PietCommand::Add) => x0.checked_add(y0).is_some(),
            Some(PietCommand::Subtract) => y0.checked_sub(x0).is_some(),
            Some(PietCommand::Multiply) => x0.checked_mul(y0).is_some(),
            Some(PietCommand::Divide) | Some(PietCommand::Modulo) => x1 != 0 && !(y0 == i64::MIN && x1 == -1),
            Some(PietCommand::Roll) => {
                if (n as u128) > (i64::MAX as u128) {
                    return false;
                }
                let rest = if n >= 2 { n - 2 } else { 0 };
                let depth: i64 = if (y0 as i128) < (rest as i128) { y0 } else { rest as i64 };
                !(depth < 0 && x0 != 0) && !(depth > 0 && x0 == i64::MIN)
            },
            _ => true,
        }
    }

    /// Executes `command` on the stack and pointers; a command that reads or
    /// prints returns what is to be read or printed.
    pub fn execute_command(&mut self, maybe_command: Option<PietCommand>) -> (io: IoRequest)
        requires
            command_ok(old(self)@.stack, maybe_command),
        ensures
            final(self)@ == executed(old(self)@, maybe_command),
            io_of(old(self)@.stack, maybe_command, io),
    {
        match maybe_command {
            Some(piet_command) => {
                match piet_command {
                    PietCommand::Push(block_size) => {
                        commands::push(&mut self.stack, block_size);
                    },
                    PietCommand::Pop => {
                        commands::pop(&mut self.stack);
                    },
                    PietCommand::Add => {
                        commands::add(&mut self.stack);
                    },
                    PietCommand::Subtract => {
                        commands::subtract(&mut self.stack);
                    },
                    PietCommand::Multiply => {
                        commands::multiply(&mut self.stack);
                    },
                    PietCommand::Divide => {
                        commands::divide(&mut self.stack);
                    },
                    PietCommand::Modulo => {
                        commands::modulo(&mut self.stack);
                    },
                    PietCommand::Not => {
                        commands::not(&mut self.stack);
                    },
                    PietCommand::Greater => {
                        commands::greater(&mut self.stack);
                    },
                    PietCommand::Pointer => {
                        commands::pointer(self);
                    },
                    PietCommand::Switch => {
                        commands::switch(self);
                    },
                    PietCommand::Duplicate => {
                        commands::duplicate(&mut self.stack);
                    },
                    PietCommand::Roll => {
                        commands::roll(&mut self.stack);
                    },
                    PietCommand::InputChar => {
                        return IoRequest::ReadChar;
                    },
                    PietCommand::OutputChar => {
                        let result = commands::output_char(&mut self.stack);
                        return match result {
                            Some(character) => IoRequest::WriteChar(character),
                            None => IoRequest::Nothing,
                        };
                    },
                    PietCommand::InputNum => {
                        return IoRequest::ReadNum;
                    },
                    PietCommand::OutputNum => {
                        let output = commands::output_num(&mut self.stack);
                        return IoRequest::WriteNum(output);
                    },
                }
            },
            None => (),
        }
        IoRequest::Nothing
    }

    /// Pushes a number that was read for `InputNum`.
    pub fn input_num(&mut self, input: i64)
        ensures
            final(self)@ == (InterpreterView { stack: old(self)@.stack.push(input), ..old(self)@ }),
    {
        commands::input_num(&mut self.stack, input);
    }

    /// Pushes the code point of a character that was read for `InputChar`.
    pub fn input_char(&mut self, input: char)
        ensures
            final(self)@ == (InterpreterView { stack: old(self)@.stack.push(input as i64), ..old(self)@ }),
    {
        commands::input_char(&mut self.stack, input);
    }

    /// Carries out the outcome of a step: executes the command of a move,
    /// changes the pointer of a blocked step, and ends on termination or
    /// error. Returns what the command asks of the world outside.
    pub fn process_state(&mut self, state: CodeState) -> (r: (ProcessStateOutcome, IoRequest))
        requires
            state matches CodeState::Continue(command) ==> command_ok(old(self)@.stack, command),
        ensures
            match state {
                CodeState::Continue(command) => r.0 == ProcessStateOutcome::Continue
                    && final(self)@ == executed(old(self)@, command)
                    && io_of(old(self)@.stack, command, r.1),
                CodeState::ModifyPointer(fallback) => r.0 == ProcessStateOutcome::ModifyPointer(fallback)
                    && final(self)@ == modified(old(self)@, fallback)
                    && r.1 == IoRequest::Nothing,
                _ => r.0 == ProcessStateOutcome::Terminate && final(self)@ == old(self)@ && r.1 == IoRequest::Nothing,
            },
    {
        match state {
            CodeState::Continue(command) => {
                let io = self.execute_command(command);
                (ProcessStateOutcome::Continue, io)
            },
            CodeState::ModifyPointer(fallback) => {
                self.modify_pointer(fallback);
                (ProcessStateOutcome::ModifyPointer(fallback), IoRequest::Nothing)
            },
            CodeState::Terminate => (ProcessStateOutcome::Terminate, IoRequest::Nothing),
            CodeState::Error => (ProcessStateOutcome::Terminate, IoRequest::Nothing),
        }
    }
}

/// Pushing a block's size and popping it again leaves the state as it was.
pub proof fn lemma_push_then_pop(st: InterpreterView, size: usize)
    ensures
        executed(executed(st, Some(PietCommand::Push(size))), Some(PietCommand::Pop)) == st,
{
    assert(popped(st.stack.push(size as i64)) =~= st.stack);
}

/// Duplicating the top of a stack that has one and popping the copy leaves the
/// state as it was.
pub proof fn lemma_duplicate_then_pop(st: InterpreterView)
    requires
        st.stack.len() > 0,
    ensures
        executed(executed(st, Some(PietCommand::Duplicate)), Some(PietCommand::Pop)) == st,
{
    let s = st.stack;
    assert(popped(s).push(top_or(s, 0)) =~= s);
    assert(popped(popped(s).push(top_or(s, 0)).push(top_or(s, 0))) =~= s);
}

/// `(-n) % 4` and `(-n - 1) % 4` in terms of `n % 4`.
proof fn lemma_neg_mod_4(n: int)
    ensures
        (-n) % 4 == (if n % 4 == 0 { 0 } else { 4 - n % 4 }),
        (-n - 1) % 4 == 3 - n % 4,
        (n - 1) % 4 == (if n % 4 == 0 { 3 } else { n % 4 - 1 }),
{
    vstd::arithmetic::div_mod::lemma_fundamental_div_mod(n, 4);
    let q = n / 4;
    let m = n % 4;
    if m == 0 {
        vstd::arithmetic::div_mod::lemma_fundamental_div_mod_converse(-n, 4, -q, 0);
        vstd::arithmetic::div_mod::lemma_fundamental_div_mod_converse(n - 1, 4, q - 1, 3);
    } else {
        vstd::arithmetic::div_mod::lemma_fundamental_div_mod_converse(-n, 4, -q - 1, 4 - m);
        vstd::arithmetic::div_mod::lemma_fundamental_div_mod_converse(n - 1, 4, q, m - 1);
    }
    vstd::arithmetic::div_mod::lemma_fundamental_div_mod_converse(-n - 1, 4, -q - 1, 3 - m);
}

/// Turning the direction pointer by `n` and then by `-n` turns it back, on a
/// reversed chart too.
pub proof fn lemma_rotated_undone(s: InterpreterView, n: int)
    ensures
        rotated(InterpreterView { dp: rotated(s, n), ..s }, -n) == s.dp,
{
    lemma_neg_mod_4(n);
    reveal_with_fuel(crate::interpreter::clockwise_n, 4);
    let m = n % 4;
    assert(0 <= m < 4);
    match s.dp {
        DP::North => {},
        DP::East => {},
        DP::South => {},
        DP::West => {},
    }
}

/// The `Pointer` command with `n` on the stack, and then with `-n`, leaves
/// the state as it was.
pub proof fn lemma_pointer_undone(st: InterpreterView, n: i64)
    requires
        n != i64::MIN,
    ensures
        ({
            let first = executed(InterpreterView { stack: st.stack.push(n), ..st }, Some(PietCommand::Pointer));
            executed(InterpreterView { stack: first.stack.push((-n) as i64), ..first }, Some(PietCommand::Pointer))
        }) == st,
{
    lemma_rotated_undone(st, n as int);
    assert(popped(st.stack.push(n)) =~= st.stack);
    assert(popped(st.stack.push((-n) as i64)) =~= st.stack);
}

/// The `Switch` command twice with the same `n` on the stack leaves the state
/// as it was.
pub proof fn lemma_switch_twice(st: InterpreterView, n: i64)
    ensures
        ({
            let first = executed(InterpreterView { stack: st.stack.push(n), ..st }, Some(PietCommand::Switch));
            executed(InterpreterView { stack: first.stack.push(n), ..first }, Some(PietCommand::Switch))
        }) == st,
{
    assert(popped(st.stack.push(n)) =~= st.stack);
}

/// Flipping the codel chooser twice leaves the state as it was.
pub proof fn lemma_flip_twice(s: InterpreterView)
    ensures
        modified(modified(s, PointerAspect::CC), PointerAspect::CC) == s,
{
}

/// Turning the direction pointer four times leaves the state as it was, on a
/// reversed chart too.
pub proof fn lemma_four_turns_back(s: InterpreterView)
    ensures
        modified(modified(modified(modified(s, PointerAspect::DP), PointerAspect::DP), PointerAspect::DP), PointerAspect::DP) == s,
{
    reveal_with_fuel(crate::interpreter::clockwise_n, 2);
    match s.dp {
        DP::North => {},
        DP::East => {},
        DP::South => {},
        DP::West => {},
    }
}

/// The commands that work on two values, on a stack that has them, with `x`
/// the top value and `y` the one below it: each takes both off and puts its
/// result in their place (`y + x`, `y - x`, `y * x`; 1 exactly when `y` is
/// greater than `x`, else 0), and changes nothing but the stack.
pub proof fn lemma_binary_commands(st: InterpreterView)
    requires
        st.stack.len() >= 2,
    ensures
        ({
            let s = st.stack;
            let n = s.len() as int;
            let (x, y, rest) = (s[n - 1], s[n - 2], s.subrange(0, n - 2));
            &&& executed(st, Some(PietCommand::Add)) == InterpreterView { stack: rest.push((y + x) as i64), ..st }
            &&& executed(st, Some(PietCommand::Subtract)) == InterpreterView { stack: rest.push((y - x) as i64), ..st }
            &&& executed(st, Some(PietCommand::Multiply)) == InterpreterView { stack: rest.push((y * x) as i64), ..st }
            &&& executed(st, Some(PietCommand::Greater)).stack.drop_last() == rest
            &&& (executed(st, Some(PietCommand::Greater)).stack.last() == 1) == (y > x)
            &&& (executed(st, Some(PietCommand::Greater)).stack.last() == 0) == !(y > x)
            &&& executed(st, Some(PietCommand::Greater)) == InterpreterView { stack: executed(st, Some(PietCommand::Greater)).stack, ..st }
        }),
{
    let s = st.stack;
    let n = s.len() as int;
    let (x, y, rest) = (s[n - 1], s[n - 2], s.subrange(0, n - 2));
    assert(popped(popped(s)) =~= rest);
    assert(popped(s).last() == s[n - 2]);
    assert(operands(s, 0, 0) == (x, y, rest));
    assert(operands(s, 1, 0) == (x, y, rest));
    assert(executed(st, Some(PietCommand::Add)).stack == rest.push((y + x) as i64));
    assert(x * y == y * x) by (nonlinear_arith);
    assert(executed(st, Some(PietCommand::Greater)).stack == rest.push(if x < y { 1i64 } else { 0i64 }));
    assert(rest.push(if x < y { 1i64 } else { 0i64 }).drop_last() =~= rest);
}

/// Dividing and taking the remainder, on a stack with `x != 0` on top and `y`
/// below it (and not the one quotient out of range): the quotient `q` is `y /
/// x` rounded down, `x * q <= y < x * q + x` (reversed for negative `x`), and
/// the remainder `r` is the one with `0 <= r < |x|` that differs from `y` by a
/// multiple of `x`.
pub proof fn lemma_division_commands(st: InterpreterView)
    requires
        st.stack.len() >= 2,
        st.stack.last() != 0,
        !(st.stack[st.stack.len() - 2] == i64::MIN && st.stack.last() == -1),
    ensures
        ({
            let s = st.stack;
            let n = s.len() as int;
            let (x, y, rest) = (s[n - 1] as int, s[n - 2] as int, s.subrange(0, n - 2));
            let d = executed(st, Some(PietCommand::Divide));
            let m = executed(st, Some(PietCommand::Modulo));
            let q = d.stack.last() as int;
            let r = m.stack.last() as int;
            &&& d.stack.len() == n - 1 && d.stack.drop_last() == rest && d == InterpreterView { stack: d.stack, ..st }
            &&& (x > 0 ==> x * q <= y < x * q + x)
            &&& (x < 0 ==> x * q >= y > x * q + x)
            &&& m.stack.len() == n - 1 && m.stack.drop_last() == rest && m == InterpreterView { stack: m.stack, ..st }
            &&& 0 <= r && (r < x || r < -x)
            &&& exists|k: int| y - r == #[trigger] (k * x)
        }),
{
    let s = st.stack;
    let n = s.len() as int;
    let (x, y) = (s[n - 1] as int, s[n - 2] as int);
    assert(popped(popped(s)) =~= s.subrange(0, n - 2));
    assert(popped(s).last() == s[n - 2]);
    commands::lemma_floor_div(y, x);
    commands::lemma_floor_div_range(y, x);
    vstd::arithmetic::div_mod::lemma_fundamental_div_mod(y, x);
    let r = y % x;
    let q = y / x;
    assert(0 <= r && (r < x || r < -x));
    assert(y - r == q * x) by (nonlinear_arith) requires y == x * q + r;
}

/// The commands that work on one value, on a stack that has it, with `x` the
/// top value: `Pop` and the outputs take it off; `Not` puts 1 in its place
/// exactly when it is 0, else 0; `Duplicate` puts a second copy on top;
/// `Push` puts the block's size on top; the inputs leave the state to the
/// value read. None changes anything but the stack.
pub proof fn lemma_unary_commands(st: InterpreterView, size: usize)
    requires
        st.stack.len() >= 1,
    ensures
        ({
            let s = st.stack;
            let x = s.last();
            &&& executed(st, Some(PietCommand::Pop)) == InterpreterView { stack: s.drop_last(), ..st }
            &&& executed(st, Some(PietCommand::OutputNum)) == InterpreterView { stack: s.drop_last(), ..st }
            &&& executed(st, Some(PietCommand::OutputChar)) == InterpreterView { stack: s.drop_last(), ..st }
            &&& executed(st, Some(PietCommand::Not)) == InterpreterView { stack: s.drop_last().push(if x == 0 { 1i64 } else { 0i64 }), ..st }
            &&& executed(st, Some(PietCommand::Duplicate)) == InterpreterView { stack: s.push(x), ..st }
            &&& executed(st, Some(PietCommand::Push(size))) == InterpreterView { stack: s.push(size as i64), ..st }
            &&& executed(st, Some(PietCommand::InputNum)) == st
            &&& executed(st, Some(PietCommand::InputChar)) == st
        }),
{
    let s = st.stack;
    assert(s.drop_last().push(s.last()) =~= s);
}

/// The number of quarter turns clockwise from north of `k` quarter turns
/// clockwise from `dp`.
proof fn lemma_clockwise_number(dp: DP, k: nat)
    ensures
        dp_number(clockwise_n(dp, k)) == (dp_number(dp) + k) % 4,
    decreases k,
{
    if k > 0 {
        lemma_clockwise_number(dp, (k - 1) as nat);
        let a = dp_number(dp) + k - 1;
        vstd::arithmetic::div_mod::lemma_add_mod_noop(a, 1, 4);
        let d = clockwise_n(dp, (k - 1) as nat);
        match d { DP::North => {}, DP::East => {}, DP::South => {}, DP::West => {} }
    }
}

/// `Pointer` with `x` on top takes it off and, on a chart that is not
/// reversed, turns the direction pointer `x` quarter turns clockwise
/// (anticlockwise for negative `x`), leaving the codel chooser as it was;
/// `Switch` with `x` on top takes it off and flips the codel chooser exactly
/// when `x` is odd, leaving the direction pointer as it was.
pub proof fn lemma_pointer_switch(st: InterpreterView)
    requires
        st.stack.len() >= 1,
    ensures
        ({
            let s = st.stack;
            let x = s.last() as int;
            let p = executed(st, Some(PietCommand::Pointer));
            let w = executed(st, Some(PietCommand::Switch));
            &&& p.stack == s.drop_last()
            &&& p.cc == st.cc
            &&& (!st.reversed ==> dp_number(p.dp) == (dp_number(st.dp) + x) % 4)
            &&& (st.reversed ==> dp_number(p.dp) == if x % 4 == 0 { dp_number(st.dp) } else { (dp_number(st.dp) + x - 2) % 4 })
            &&& p == InterpreterView { stack: p.stack, dp: p.dp, ..st }
            &&& w.stack == s.drop_last()
            &&& w.dp == st.dp
            &&& (w.cc == st.cc) == (x % 2 == 0)
            &&& w == InterpreterView { stack: w.stack, cc: w.cc, ..st }
        }),
{
    let x = st.stack.last() as int;
    lemma_clockwise_number(st.dp, (x % 4) as nat);
    if st.reversed && x % 4 != 0 {
        let a = crate::interpreter::anticlockwise(st.dp);
        lemma_clockwise_number(a, ((x - 1) % 4) as nat);
        assert(dp_number(a) == (dp_number(st.dp) + 3) % 4) by {
            match st.dp { DP::North => {}, DP::East => {}, DP::South => {}, DP::West => {} }
        }
        vstd::arithmetic::div_mod::lemma_fundamental_div_mod(x, 4);
        vstd::arithmetic::div_mod::lemma_fundamental_div_mod_converse(x - 1, 4, x / 4, x % 4 - 1);
        vstd::arithmetic::div_mod::lemma_add_mod_noop(dp_number(a), x - 1, 4);
        vstd::arithmetic::div_mod::lemma_add_mod_noop(dp_number(st.dp) + 3, x - 1, 4);
        vstd::arithmetic::div_mod::lemma_mod_twice(x - 1, 4);
        assert(dp_number(a) % 4 == dp_number(a));
        assert((dp_number(st.dp) + 3) % 4 % 4 == (dp_number(st.dp) + 3) % 4) by {
            vstd::arithmetic::div_mod::lemma_mod_twice(dp_number(st.dp) + 3, 4);
        }
        assert(dp_number(st.dp) + 3 + x - 1 == (dp_number(st.dp) + x - 2) + 4);
        vstd::arithmetic::div_mod::lemma_mod_add_multiples_vanish(dp_number(st.dp) + x - 2, 4);
    }
    vstd::arithmetic::div_mod::lemma_add_mod_noop(dp_number(st.dp), x, 4);
    assert(dp_number(st.dp) % 4 == dp_number(st.dp));
    assert((x % 4) % 4 == x % 4) by {
        vstd::arithmetic::div_mod::lemma_mod_twice(x, 4);
    }
    match st.cc { CC::Left => {}, CC::Right => {} }
}

/// `Roll` with count 1 and depth `k` (no deeper than the rest of the stack)
/// moves the value at the top of the rest down to the bottom of the top `k`
/// values, the others moving up one place.
pub proof fn lemma_roll_once(st: InterpreterView, k: i64)
    requires
        st.stack.len() >= 3,
        st.stack.last() == 1,
        st.stack[st.stack.len() - 2] == k,
        1 <= k <= st.stack.len() - 2,
    ensures
        ({
            let s = st.stack;
            let rest = s.subrange(0, s.len() - 2);
            let m = rest.len() as int;
            executed(st, Some(PietCommand::Roll)) == InterpreterView {
                stack: rest.subrange(0, m - k) + seq![rest[m - 1]] + rest.subrange(m - k, m - 1),
                ..st
            }
        }),
{
    let s = st.stack;
    let n = s.len() as int;
    let rest = s.subrange(0, n - 2);
    let m = rest.len() as int;
    assert(popped(popped(s)) =~= rest);
    assert(popped(s).last() == s[n - 2]);
    let seg = rest.subrange(m - k, m);
    let r = rolled(s);
    let expect = rest.subrange(0, m - k) + seq![rest[m - 1]] + rest.subrange(m - k, m - 1);
    let tail = seq![rest[m - 1]] + rest.subrange(m - k, m - 1);
    let rot = Seq::new(k as nat, |j: int| seg[(j - 1) % (k as int)]);
    assert forall|i: int| 0 <= i < k implies #[trigger] rot[i] == tail[i] by {
        if i == 0 {
            vstd::arithmetic::div_mod::lemma_fundamental_div_mod_converse(-1, k as int, -1, k - 1);
        } else {
            vstd::arithmetic::div_mod::lemma_fundamental_div_mod_converse(i - 1, k as int, 0, i - 1);
        }
    }
    assert(rot =~= tail);
    assert(r == rest.subrange(0, m - k) + rot);
    assert(r =~= expect);
}

/// On a stack with fewer values than a command takes, each missing value is
/// taken as a default: the top as 1 for `Divide`, `Modulo` and `Greater` and
/// as 0 otherwise, the second as 0.
pub proof fn lemma_short_stack_commands(st: InterpreterView)
    requires
        st.stack.len() <= 1,
    ensures
        ({
            let s = st.stack;
            let x: i64 = if s.len() == 1 { s[0] } else { 0 };
            let xd: i64 = if s.len() == 1 { s[0] } else { 1 };
            &&& executed(st, Some(PietCommand::Add)).stack == seq![x]
            &&& executed(st, Some(PietCommand::Subtract)).stack == seq![(0 - x) as i64]
            &&& executed(st, Some(PietCommand::Multiply)).stack == seq![0i64]
            &&& executed(st, Some(PietCommand::Greater)).stack == seq![if 0 > xd { 1i64 } else { 0i64 }]
            &&& (xd != 0 ==> executed(st, Some(PietCommand::Divide)).stack == seq![0i64])
            &&& (xd != 0 ==> executed(st, Some(PietCommand::Modulo)).stack == seq![0i64])
            &&& executed(st, Some(PietCommand::Not)).stack == seq![if x == 0 { 1i64 } else { 0i64 }]
            &&& executed(st, Some(PietCommand::Duplicate)).stack == seq![x, x]
            &&& (s.len() == 0 ==> executed(st, Some(PietCommand::Pointer)) == st)
            &&& (s.len() == 0 ==> executed(st, Some(PietCommand::Switch)) == st)
            &&& (s.len() == 0 ==> executed(st, Some(PietCommand::Pop)) == st)
        }),
{
    let s = st.stack;
    assert(popped(s) =~= Seq::<i64>::empty());
    assert(popped(popped(s)) =~= Seq::<i64>::empty());
    let xd: i64 = if s.len() == 1 { s[0] } else { 1 };
    let x: i64 = if s.len() == 1 { s[0] } else { 0 };
    if xd != 0 {
        let d = xd as int;
        vstd::arithmetic::div_mod::lemma_fundamental_div_mod(0, d);
        let q = 0int / d;
        let r = 0int % d;
        assert(0 <= r && (r < d || r < -d));
        assert(q == 0 && r == 0) by (nonlinear_arith)
            requires 0 == d * q + r, 0 <= r, r < d || r < -d, d != 0;
        assert(floor_div(0, d) == 0);
        assert(executed(st, Some(PietCommand::Divide)).stack == seq![0i64]);
        assert(executed(st, Some(PietCommand::Modulo)).stack == seq![0i64]);
    }
    assert(executed(st, Some(PietCommand::Add)).stack == seq![x]);
    assert(executed(st, Some(PietCommand::Subtract)).stack == seq![(0 - x) as i64]);
    assert(x * 0i64 == 0) by (nonlinear_arith);
    assert(executed(st, Some(PietCommand::Multiply)).stack == seq![0i64]);
    assert(executed(st, Some(PietCommand::Greater)).stack == seq![if 0 > xd { 1i64 } else { 0i64 }]);
    assert(executed(st, Some(PietCommand::Not)).stack == seq![if x == 0 { 1i64 } else { 0i64 }]);
    reveal_with_fuel(crate::interpreter::clockwise_n, 1);
    assert(seq![0i64].push(0i64) =~= seq![0i64, 0i64]);
}

} // verus!
