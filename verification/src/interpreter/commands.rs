//! The stack commands of Piet. A command that needs more values than the
//! stack holds takes a default in place of each missing one.

use vstd::prelude::*;

use crate::canvas::BlockSize;
use crate::interpreter::{Interpreter, InterpreterView, PietStack, rotated, flipped};
use crate::interpreter::rem_euclid;

verus! {

/// The top of `s`, or `default` when `s` is empty.
pub open spec fn top_or(s: Seq<i64>, default: i64) -> i64 {
    if s.len() > 0 { s.last() } else { default }
}

/// `s` without its top, or `s` itself when it is empty.
pub open spec fn popped(s: Seq<i64>) -> Seq<i64> {
    if s.len() > 0 { s.drop_last() } else { s }
}

/// The two values that a binary command takes, `(x, y)` with `x` the top,
/// and the stack that is left.
pub open spec fn operands(s: Seq<i64>, dx: i64, dy: i64) -> (i64, i64, Seq<i64>) {
    (top_or(s, dx), top_or(popped(s), dy), popped(popped(s)))
}

/// `y` divided by `x`, rounded down (towards negative infinity), as Python's
/// `//` does: the Euclidean quotient, less one where `x` is negative and does
/// not divide `y`.
pub open spec fn floor_div(y: int, x: int) -> int {
    if x < 0 && y % x != 0 { y / x - 1 } else { y / x }
}

/// `floor_div(y, x)` is the quotient rounded down: `y` lies between `x` times
/// it and `x` times the next integer.
pub proof fn lemma_floor_div(y: int, x: int)
    requires
        x != 0,
    ensures
        x > 0 ==> x * floor_div(y, x) <= y < x * floor_div(y, x) + x,
        x < 0 ==> x * floor_div(y, x) >= y > x * floor_div(y, x) + x,
{
    let q = y / x;
    let r = y % x;
    vstd::arithmetic::div_mod::lemma_fundamental_div_mod(y, x);
    assert(0 <= r < if x > 0 { x } else { -x });
    if x < 0 && r != 0 {
        assert(x * (q - 1) == x * q - x) by (nonlinear_arith);
    }
}

/// Within the range of `i64`, the quotient rounded down fits in an `i64`,
/// but for `i64::MIN` divided by -1.
pub proof fn lemma_floor_div_range(y: int, x: int)
    requires
        x != 0,
        i64::MIN <= y <= i64::MAX,
        i64::MIN <= x <= i64::MAX,
        !(y == i64::MIN && x == -1),
    ensures
        i64::MIN <= floor_div(y, x) <= i64::MAX,
        i64::MIN <= y / x <= i64::MAX,
{
    lemma_floor_div(y, x);
    let q = y / x;
    let r = y % x;
    vstd::arithmetic::div_mod::lemma_fundamental_div_mod(y, x);
    assert(0 <= r < if x > 0 { x } else { -x });
    if x == -1 {
        assert(q == -y) by (nonlinear_arith) requires y == x * q + r, r == 0, x == -1;
    } else if x < 0 {
        assert(i64::MIN <= q <= i64::MAX) by (nonlinear_arith)
            requires y == x * q + r, 0 <= r < -x, x <= -2, i64::MIN <= y <= i64::MAX;
    }
    let f = floor_div(y, x);
    if x > 0 {
        assert(i64::MIN <= f <= i64::MAX) by (nonlinear_arith)
            requires x * f <= y < x * f + x, x >= 1, i64::MIN <= y <= i64::MAX;
    } else {
        assert(i64::MIN <= f <= i64::MAX) by (nonlinear_arith)
            requires x * f >= y > x * f + x, x <= -1, i64::MIN <= y <= i64::MAX, !(y == i64::MIN && x == -1), x >= i64::MIN;
    }
}

/// The stack after `roll`: `x` is the top, `y` the value below it; the top
/// `n = min(y, rest)` values of the rest are rotated up by `x`, values that
/// pass the top coming round to the bottom of the rolled part.
pub open spec fn rolled(s: Seq<i64>) -> Seq<i64> {
    let (x, y, rest) = operands(s, 0, 0);
    let n: int = if y < rest.len() { y as int } else { rest.len() as int };
    if n <= 0 {
        rest
    } else {
        let seg = rest.subrange(rest.len() - n, rest.len() as int);
        rest.subrange(0, rest.len() - n) + Seq::new(n as nat, |i: int| seg[(i - x) % n])
    }
}

/// The inputs on which `roll` can run: not a negative depth with a nonzero
/// count, and not the least `i64` as count.
pub open spec fn roll_ok(s: Seq<i64>) -> bool {
    let (x, y, rest) = operands(s, 0, 0);
    let n: int = if y < rest.len() { y as int } else { rest.len() as int };
    &&& !(n < 0 && x != 0)
    &&& !(n > 0 && x == i64::MIN)
    &&& s.len() <= i64::MAX
}

fn pop_or(stack: &mut PietStack, default: i64) -> (v: i64)
    ensures
        v == top_or(old(stack)@, default),
        final(stack)@ == popped(old(stack)@),
{
    stack.pop().unwrap_or(default)
}

/// The character with code point `i`, through `char::from_u32`: `Some` exactly
/// when `i` is a Unicode scalar value (below 0xD800, or from 0xE000 to 0x10FFFF),
/// as its documentation states.
#[verifier::external_body]
fn char_from_u32(i: u32) -> (c: Option<char>)
    ensures
        c is Some <==> (i < 0xD800 || (0xE000 <= i && i < 0x110000)),
        c matches Some(ch) ==> ch as u32 == i,
{
    char::from_u32(i)
}

/// Pushes the size of the block just left.
pub fn push(stack: &mut PietStack, value: BlockSize)
    ensures
        final(stack)@ == old(stack)@.push(value as i64),
{
    stack.push(value as i64);
}

/// Pops the top value.
pub fn pop(stack: &mut PietStack)
    ensures
        final(stack)@ == popped(old(stack)@),
{
    stack.pop();
}

/// Pops `x` and `y` (missing values are 0) and pushes `x + y`.
pub fn add(stack: &mut PietStack)
    requires
        i64::MIN <= operands(old(stack)@, 0, 0).0 + operands(old(stack)@, 0, 0).1 <= i64::MAX,
    ensures
        final(stack)@ == operands(old(stack)@, 0, 0).2.push(
            (operands(old(stack)@, 0, 0).0 + operands(old(stack)@, 0, 0).1) as i64),
{
    let x = pop_or(stack, 0);
    let y = pop_or(stack, 0);
    stack.push(x + y);
}

/// Pops `x` and then `y` (missing values are 0) and pushes `y - x`.
pub fn subtract(stack: &mut PietStack)
    requires
        i64::MIN <= operands(old(stack)@, 0, 0).1 - operands(old(stack)@, 0, 0).0 <= i64::MAX,
    ensures
        final(stack)@ == operands(old(stack)@, 0, 0).2.push(
            (operands(old(stack)@, 0, 0).1 - operands(old(stack)@, 0, 0).0) as i64),
{
    let x = pop_or(stack, 0);
    let y = pop_or(stack, 0);
    stack.push(y - x);
}

/// Pops `x` and `y` (missing values are 0) and pushes `x * y`.
pub fn multiply(stack: &mut PietStack)
    requires
        i64::MIN <= operands(old(stack)@, 0, 0).0 * operands(old(stack)@, 0, 0).1 <= i64::MAX,
    ensures
        final(stack)@ == operands(old(stack)@, 0, 0).2.push(
            (operands(old(stack)@, 0, 0).0 * operands(old(stack)@, 0, 0).1) as i64),
{
    let x = pop_or(stack, 0);
    let y = pop_or(stack, 0);
    stack.push(x * y);
}

/// Pops `x` (missing: 1) and then `y` (missing: 0) and pushes `y / x`,
/// rounded down, as Python's `//` does.
pub fn divide(stack: &mut PietStack)
    requires
        operands(old(stack)@, 1, 0).0 != 0,
        !(operands(old(stack)@, 1, 0).1 == i64::MIN && operands(old(stack)@, 1, 0).0 == -1),
    ensures
        final(stack)@ == operands(old(stack)@, 1, 0).2.push(
            floor_div(operands(old(stack)@, 1, 0).1 as int, operands(old(stack)@, 1, 0).0 as int) as i64),
{
    let x = pop_or(stack, 1);
    let y = pop_or(stack, 0);
    proof {
        lemma_floor_div_range(y as int, x as int);
    }
    let q = match y.checked_div_euclid(x) {
        Some(q) => q,
        None => 0,
    };
    let r = match y.checked_rem_euclid(x) {
        Some(r) => r,
        None => 0,
    };
    let f = if x < 0 && r != 0 { q - 1 } else { q };
    stack.push(f);
}

/// Pops `x` (missing: 1) and then `y` (missing: 0) and pushes the
/// Euclidean remainder of `y` by `x`, which is never negative.
pub fn modulo(stack: &mut PietStack)
    requires
        operands(old(stack)@, 1, 0).0 != 0,
        !(operands(old(stack)@, 1, 0).1 == i64::MIN && operands(old(stack)@, 1, 0).0 == -1),
    ensures
        final(stack)@ == operands(old(stack)@, 1, 0).2.push(
            (operands(old(stack)@, 1, 0).1 % operands(old(stack)@, 1, 0).0) as i64),
{
    let x = pop_or(stack, 1);
    let y = pop_or(stack, 0);
    let r = match y.checked_rem_euclid(x) {
        Some(r) => r,
        None => 0,
    };
    stack.push(r);
}

/// Pops `x` (missing: 0) and pushes 1 if it is 0, 0 otherwise.
pub fn not(stack: &mut PietStack)
    ensures
        final(stack)@ == popped(old(stack)@).push(if top_or(old(stack)@, 0) == 0 { 1 } else { 0 }),
{
    let x = pop_or(stack, 0);
    stack.push(if x == 0 { 1 } else { 0 });
}

/// Pops `x` (missing: 1) and then `y` (missing: 0) and pushes 1 if `y > x`,
/// 0 otherwise.
pub fn greater(stack: &mut PietStack)
    ensures
        final(stack)@ == operands(old(stack)@, 1, 0).2.push(
            if operands(old(stack)@, 1, 0).0 < operands(old(stack)@, 1, 0).1 { 1 } else { 0 }),
{
    let x = pop_or(stack, 1);
    let y = pop_or(stack, 0);
    stack.push(if x < y { 1 } else { 0 });
}

/// Pushes a copy of the top value (0 on an empty stack, which is pushed twice).
pub fn duplicate(stack: &mut PietStack)
    ensures
        final(stack)@ == popped(old(stack)@).push(top_or(old(stack)@, 0)).push(top_or(old(stack)@, 0)),
{
    let x = pop_or(stack, 0);
    stack.push(x);
    stack.push(x);
}

/// With `x = q * n + k`, the index `(i - k) mod n`, computed without leaving
/// `0..2n`, is `(i - x) % n`.
proof fn lemma_rolled_index(i: int, x: int, n: int, k: int, j: int)
    requires
        n > 0,
        0 <= i < n,
        k == x % n,
        j == (if i >= k { i - k } else { i + (n - k) }),
    ensures
        0 <= j < n,
        j == (i - x) % n,
{
    vstd::arithmetic::div_mod::lemma_fundamental_div_mod(x, n);
    let q = x / n;
    assert(x == n * q + k);
    if i >= k {
        assert(i - x == (-q) * n + j) by (nonlinear_arith) requires x == n * q + k, j == i - k;
        vstd::arithmetic::div_mod::lemma_fundamental_div_mod_converse(i - x, n, -q, j);
    } else {
        assert(i - x == (-q - 1) * n + j) by (nonlinear_arith) requires x == n * q + k, j == i + (n - k);
        vstd::arithmetic::div_mod::lemma_fundamental_div_mod_converse(i - x, n, -q - 1, j);
    }
}

/// Rolling by `x` and then, over the same depth `y`, by `-x` gives back the
/// stack.
pub proof fn lemma_roll_undone(rest: Seq<i64>, y: i64, x: i64)
    requires
        x != i64::MIN,
    ensures
        rolled(rolled(rest.push(y).push(x)).push(y).push((-x) as i64)) == rest,
{
    let s1 = rest.push(y).push(x);
    assert(operands(s1, 0, 0) == (x, y, rest)) by {
        assert(popped(s1) == rest.push(y));
        assert(popped(rest.push(y)) == rest);
    }
    let r1 = rolled(s1);
    let s2 = r1.push(y).push((-x) as i64);
    assert(operands(s2, 0, 0) == ((-x) as i64, y, r1)) by {
        assert(popped(s2) == r1.push(y));
        assert(popped(r1.push(y)) == r1);
    }
    let n: int = if y < rest.len() { y as int } else { rest.len() as int };
    if n > 0 {
        let len = rest.len() as int;
        let seg = rest.subrange(len - n, len);
        assert(r1.len() == len);
        let seg2 = r1.subrange(len - n, len);
        assert forall|i: int| 0 <= i < n implies #[trigger] seg2[i] == seg[(i - x) % n] by {
            assert(seg2[i] == r1[len - n + i]);
        }
        let r2 = rolled(s2);
        assert forall|i: int| 0 <= i < len implies #[trigger] r2[i] == rest[i] by {
            if i >= len - n {
                let k = i - (len - n);
                let j = (k - (-x)) % n;
                assert(0 <= j < n);
                assert(r2[i] == seg2[j]);
                assert((j - x) % n == k) by {
                    vstd::arithmetic::div_mod::lemma_fundamental_div_mod(k + x, n);
                    let q = (k + x) / n;
                    assert(j - x == (-q) * n + k) by (nonlinear_arith) requires j == (k + x) % n, k + x == n * q + (k + x) % n;
                    vstd::arithmetic::div_mod::lemma_fundamental_div_mod_converse(j - x, n, -q, k);
                }
            }
        }
        assert(r2 =~= rest);
    }
}

/// Pops `x` and then `y` (missing values are 0) and rolls the top
/// `min(y, depth)` values of the stack up by `x` (see `rolled`): with 1, 2, 3
/// on the stack (3 on top), pushing 3 and 1 and rolling gives 3, 1, 2.
pub fn roll(stack: &mut PietStack)
    requires
        roll_ok(old(stack)@),
    ensures
        final(stack)@ == rolled(old(stack)@),
{
    let ghost s0 = old(stack)@;
    let x = pop_or(stack, 0);
    let depth = pop_or(stack, 0);
    let ghost rest = stack@;
    let len = stack.len() as i64;
    let y = if depth < len { depth } else { len };
    if y <= 0 {
        return;
    }
    let n = y as usize;
    let ghost l = rest.len() as int;
    let mut vals: Vec<i64> = Vec::new();
    let mut i: usize = 0;
    while i < n
        invariant
            0 <= i <= n,
            n <= l,
            l == rest.len(),
            stack@ == rest.subrange(0, l - i),
            vals@.len() == i,
            forall|j: int| 0 <= j < i ==> vals@[j] == rest[l - 1 - j],
        decreases n - i,
    {
        let v = match stack.pop() {
            Some(v) => v,
            None => 0,
        };
        proof {
            assert(v == rest[l - 1 - i]);
        }
        vals.push(v);
        i = i + 1;
        proof {
            assert(stack@ =~= rest.subrange(0, l - i));
        }
    }
    let ghost seg = rest.subrange(l - n, l);
    let k = rem_euclid(x, y) as usize;
    let mut i: usize = 0;
    while i < n
        invariant
            0 <= i <= n,
            0 <= k < n,
            k == (x as int) % (n as int),
            n <= l,
            l == rest.len(),
            vals@.len() == n,
            forall|j: int| 0 <= j < n ==> vals@[j] == rest[l - 1 - j],
            seg == rest.subrange(l - n, l),
            stack@ == rest.subrange(0, l - n) + Seq::new(i as nat, |t: int| seg[(t - x as int) % (n as int)]),
        decreases n - i,
    {
        let j = if i >= k { i - k } else { i + (n - k) };
        proof {
            lemma_rolled_index(i as int, x as int, n as int, k as int, j as int);
            assert(vals@[n - 1 - j] == seg[j as int]);
        }
        stack.push(vals[n - 1 - j]);
        i = i + 1;
        proof {
            assert(stack@ =~= rest.subrange(0, l - n) + Seq::new(i as nat, |t: int| seg[(t - x as int) % (n as int)]));
        }
    }
}

/// Pops the top value `n` (missing: 0) and turns the direction pointer `n`
/// quarter turns clockwise (anticlockwise for negative `n`).
pub fn pointer(interpreter: &mut Interpreter)
    ensures
        final(interpreter)@ == (InterpreterView {
            stack: popped(old(interpreter)@.stack),
            dp: rotated(old(interpreter)@, top_or(old(interpreter)@.stack, 0) as int),
            ..old(interpreter)@
        }),
{
    let n = pop_or(&mut interpreter.stack, 0);
    interpreter.rotate_dp(n);
}

/// Pops the top value `n` (missing: 0) and flips the codel chooser `n` times.
pub fn switch(interpreter: &mut Interpreter)
    ensures
        final(interpreter)@ == (InterpreterView {
            stack: popped(old(interpreter)@.stack),
            cc: if top_or(old(interpreter)@.stack, 0) % 2 == 0 { old(interpreter)@.cc } else { flipped(old(interpreter)@.cc) },
            ..old(interpreter)@
        }),
{
    let n = pop_or(&mut interpreter.stack, 0);
    interpreter.flip_n_cc(n);
}

/// Pushes a number that was read.
pub fn input_num(stack: &mut PietStack, input: i64)
    ensures
        final(stack)@ == old(stack)@.push(input),
{
    stack.push(input);
}

/// Pushes the code point of a character that was read.
pub fn input_char(stack: &mut PietStack, input: char)
    ensures
        final(stack)@ == old(stack)@.push(input as i64),
{
    stack.push(input as u32 as i64);
}

/// Pops the top value (missing: 0), to be printed as a number.
pub fn output_num(stack: &mut PietStack) -> (output: i64)
    ensures
        output == top_or(old(stack)@, 0),
        final(stack)@ == popped(old(stack)@),
{
    pop_or(stack, 0)
}

/// Pops the top value (missing: 0), to be printed as the Unicode character
/// with that code point; `None` where the value is no Unicode scalar value.
pub fn output_char(stack: &mut PietStack) -> (output: Option<char>)
    ensures
        final(stack)@ == popped(old(stack)@),
        ({
            let v = top_or(old(stack)@, 0);
            &&& (output is Some <==> (0 <= v < 0xD800 || (0xE000 <= v && v < 0x110000)))
            &&& (output matches Some(c) ==> c as u32 == v)
        }),
{
    let char_int = pop_or(stack, 0);
    if char_int < 0 || char_int > 0x10FFFF {
        return None;
    }
    char_from_u32(char_int as u32)
}

} // verus!
