use piet::interpreter::commands::{
    add, divide, duplicate, greater, input_char, input_num, modulo, multiply, not, output_char, output_num, pointer,
    pop, push, roll, subtract, switch,
};
use piet::interpreter::{CC, DP, Interpreter};

#[test]
fn push_and_pop() {
    let mut stack: Vec<i64> = vec![4];
    push(&mut stack, 7);
    assert_eq!(stack, vec![4, 7]);
    pop(&mut stack);
    assert_eq!(stack, vec![4]);
    pop(&mut stack);
    pop(&mut stack);
    assert_eq!(stack, Vec::<i64>::new());
}

#[test]
fn arithmetic_takes_the_top_as_second_operand() {
    let mut stack: Vec<i64> = vec![10, 3];
    add(&mut stack);
    assert_eq!(stack, vec![13]);
    let mut stack: Vec<i64> = vec![10, 3];
    subtract(&mut stack);
    assert_eq!(stack, vec![7]);
    let mut stack: Vec<i64> = vec![10, 3];
    multiply(&mut stack);
    assert_eq!(stack, vec![30]);
    let mut stack: Vec<i64> = vec![10, 3];
    divide(&mut stack);
    assert_eq!(stack, vec![3]);
    let mut stack: Vec<i64> = vec![10, 3];
    modulo(&mut stack);
    assert_eq!(stack, vec![1]);
}

#[test]
fn division_rounds_down() {
    let cases: [(i64, i64, i64); 5] = [(7, 2, 3), (-7, 2, -4), (7, -2, -4), (-7, -2, 3), (-6, 3, -2)];
    for (y, x, q) in cases {
        let mut stack: Vec<i64> = vec![y, x];
        divide(&mut stack);
        assert_eq!(stack, vec![q], "{y} // {x}");
    }
}

#[test]
fn remainder_is_never_negative() {
    let cases: [(i64, i64, i64); 4] = [(7, 2, 1), (-7, 2, 1), (7, -2, 1), (-7, -3, 2)];
    for (y, x, r) in cases {
        let mut stack: Vec<i64> = vec![y, x];
        modulo(&mut stack);
        assert_eq!(stack, vec![r], "{y} mod {x}");
    }
}

#[test]
fn missing_operands_take_defaults() {
    let mut stack: Vec<i64> = vec![];
    add(&mut stack);
    assert_eq!(stack, vec![0]);
    let mut stack: Vec<i64> = vec![5];
    divide(&mut stack);
    assert_eq!(stack, vec![0]);
    let mut stack: Vec<i64> = vec![];
    divide(&mut stack);
    assert_eq!(stack, vec![0]);
    let mut stack: Vec<i64> = vec![];
    greater(&mut stack);
    assert_eq!(stack, vec![0]);
    let mut stack: Vec<i64> = vec![];
    duplicate(&mut stack);
    assert_eq!(stack, vec![0, 0]);
    let mut stack: Vec<i64> = vec![];
    assert_eq!(output_num(&mut stack), 0);
}

#[test]
fn not_and_greater() {
    let mut stack: Vec<i64> = vec![0];
    not(&mut stack);
    assert_eq!(stack, vec![1]);
    not(&mut stack);
    assert_eq!(stack, vec![0]);
    let mut stack: Vec<i64> = vec![5, 3];
    greater(&mut stack);
    assert_eq!(stack, vec![1]);
    let mut stack: Vec<i64> = vec![3, 5];
    greater(&mut stack);
    assert_eq!(stack, vec![0]);
    let mut stack: Vec<i64> = vec![4, 4];
    greater(&mut stack);
    assert_eq!(stack, vec![0]);
}

#[test]
fn duplicate_then_pop_restores_the_stack() {
    let mut stack: Vec<i64> = vec![3, -8];
    duplicate(&mut stack);
    pop(&mut stack);
    assert_eq!(stack, vec![3, -8]);
}

#[test]
fn duplicate_copies_the_top() {
    let mut stack: Vec<i64> = vec![1, 9];
    duplicate(&mut stack);
    assert_eq!(stack, vec![1, 9, 9]);
}

#[test]
fn roll_example_of_the_documentation() {
    let mut stack: Vec<i64> = vec![1, 2, 3];
    stack.push(3);
    stack.push(1);
    roll(&mut stack);
    assert_eq!(stack, vec![3, 1, 2]);
}

#[test]
fn roll_backwards_and_partly() {
    let mut stack: Vec<i64> = vec![1, 2, 3, 3, -1];
    roll(&mut stack);
    assert_eq!(stack, vec![2, 3, 1]);
    let mut stack: Vec<i64> = vec![9, 1, 2, 3, 2, 1];
    roll(&mut stack);
    assert_eq!(stack, vec![9, 1, 3, 2]);
    let mut stack: Vec<i64> = vec![1, 2, 3, 10, 4];
    roll(&mut stack);
    assert_eq!(stack, vec![3, 1, 2]);
    let mut stack: Vec<i64> = vec![1, 2, 0, 5];
    roll(&mut stack);
    assert_eq!(stack, vec![1, 2]);
}

#[test]
fn roll_then_roll_back_restores_the_stack() {
    let before: Vec<i64> = vec![5, 6, 7, 8, 9];
    for (depth, count) in [(3i64, 2i64), (5, 7), (4, -3), (9, 1)] {
        let mut stack = before.clone();
        stack.push(depth);
        stack.push(count);
        roll(&mut stack);
        stack.push(depth);
        stack.push(-count);
        roll(&mut stack);
        assert_eq!(stack, before);
    }
}

#[test]
fn pointer_and_switch() {
    let mut interpreter = Interpreter::new();
    let mut stack_interpreter = Interpreter::from_data(DP::North, CC::Left, (0, 0), 0, false);
    stack_interpreter.input_num(3);
    pointer(&mut stack_interpreter);
    assert_eq!(stack_interpreter.dp(), DP::West);
    stack_interpreter.input_num(-3);
    pointer(&mut stack_interpreter);
    assert_eq!(stack_interpreter.dp(), DP::North);
    interpreter.input_num(3);
    switch(&mut interpreter);
    assert_eq!(interpreter.cc(), CC::Right);
    interpreter.input_num(-2);
    switch(&mut interpreter);
    assert_eq!(interpreter.cc(), CC::Right);
    interpreter.input_num(-1);
    switch(&mut interpreter);
    assert_eq!(interpreter.cc(), CC::Left);
    assert!(interpreter.stack_values().is_empty());
}

#[test]
fn pointer_on_a_reversed_chart() {
    let mut interpreter = Interpreter::from_data(DP::North, CC::Left, (0, 0), 0, true);
    interpreter.input_num(1);
    pointer(&mut interpreter);
    assert_eq!(interpreter.dp(), DP::West);
    interpreter.input_num(-1);
    pointer(&mut interpreter);
    assert_eq!(interpreter.dp(), DP::North);
}

#[test]
fn input_and_output() {
    let mut stack: Vec<i64> = vec![];
    input_num(&mut stack, -12);
    input_char(&mut stack, 'A');
    assert_eq!(stack, vec![-12, 65]);
    assert_eq!(output_char(&mut stack), Some('A'));
    assert_eq!(output_num(&mut stack), -12);
    let mut stack: Vec<i64> = vec![0xD800];
    assert_eq!(output_char(&mut stack), None);
    let mut stack: Vec<i64> = vec![0x1F600];
    assert_eq!(output_char(&mut stack), Some('\u{1F600}'));
    let mut stack: Vec<i64> = vec![];
    assert_eq!(output_char(&mut stack), Some('\u{0}'));
}

#[test]
fn output_char_needs_a_unicode_scalar_value() {
    let mut stack: Vec<i64> = vec![(1i64 << 32) + 65];
    assert_eq!(output_char(&mut stack), None);
    assert!(stack.is_empty());
    let mut stack: Vec<i64> = vec![-1];
    assert_eq!(output_char(&mut stack), None);
    let mut stack: Vec<i64> = vec![0x110000];
    assert_eq!(output_char(&mut stack), None);
    let mut stack: Vec<i64> = vec![0x10FFFF];
    assert_eq!(output_char(&mut stack), Some('\u{10FFFF}'));
}
