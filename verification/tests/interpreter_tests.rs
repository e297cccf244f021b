use piet::canvas::Canvas;
use piet::interpreter::{
    CC, CodeState, DP, Interpretable, Interpreter, IoRequest, PietCommand, PointerAspect, ProcessStateOutcome, RunState,
};
use piet::palette::{rgba, PietColour};
use piet::palette::PietColour::{
    Black, Blue, Cyan, DarkBlue, DarkCyan, DarkGreen, DarkMagenta, DarkRed, DarkYellow, Green, LightBlue, LightCyan,
    LightGreen, LightMagenta, LightRed, LightYellow, Magenta, Red, White, Yellow,
};

fn canvas_of(rows: &[Vec<PietColour>]) -> Canvas {
    let mut pixels: Vec<u8> = Vec::new();
    for row in rows {
        for colour in row {
            pixels.extend_from_slice(&rgba(*colour));
        }
    }
    Canvas::from_rgba(rows[0].len() as u32, rows.len() as u32, &pixels, 1).expect("Failed to build canvas")
}

#[test]
fn interpreter_starts_at_the_north_west_codel() {
    let interpreter = Interpreter::new();
    assert_eq!(interpreter.dp(), DP::East);
    assert_eq!(interpreter.cc(), CC::Left);
    assert_eq!(interpreter.current_coordinate(), (0, 0));
    assert_eq!(interpreter.current_chart_index(), 0);
    assert!(interpreter.stack_values().is_empty());
}

#[test]
fn steps_push_the_size_of_the_block_left() {
    let canvas = canvas_of(&[vec![LightRed, LightRed, Red, DarkRed]]);
    let mut interpreter = Interpreter::new();
    let state = interpreter.get_next_state(&canvas, PointerAspect::CC);
    assert_eq!(state, CodeState::Continue(Some(PietCommand::Push(2))));
    assert_eq!(interpreter.current_coordinate(), (2, 0));
    let state = interpreter.get_next_state(&canvas, PointerAspect::CC);
    assert_eq!(state, CodeState::Continue(Some(PietCommand::Push(1))));
    assert_eq!(interpreter.current_coordinate(), (3, 0));
}

#[test]
fn obtains_commands_from_hue_and_lightness_changes() {
    let cases: [(PietColour, PietColour, PietCommand); 17] = [
        (Red, Red, PietCommand::Push(1)),
        (Red, LightRed, PietCommand::Pop),
        (Red, Yellow, PietCommand::Add),
        (Red, DarkYellow, PietCommand::Subtract),
        (Red, LightYellow, PietCommand::Multiply),
        (Red, Green, PietCommand::Divide),
        (Red, DarkGreen, PietCommand::Modulo),
        (Red, LightGreen, PietCommand::Not),
        (Red, Cyan, PietCommand::Greater),
        (Red, DarkCyan, PietCommand::Pointer),
        (Red, LightCyan, PietCommand::Switch),
        (Red, Blue, PietCommand::Duplicate),
        (Red, DarkBlue, PietCommand::Roll),
        (Red, LightBlue, PietCommand::InputNum),
        (Red, Magenta, PietCommand::InputChar),
        (Red, DarkMagenta, PietCommand::OutputNum),
        (Red, LightMagenta, PietCommand::OutputChar),
    ];
    for (from, to, command) in cases {
        // The first case leaves light red for red.
        let first = if command == PietCommand::Push(1) { LightRed } else { from };
        let canvas = canvas_of(&[vec![first, to]]);
        let mut interpreter = Interpreter::new();
        let state = interpreter.get_next_state(&canvas, PointerAspect::CC);
        assert_eq!(state, CodeState::Continue(Some(command)));
    }
}

#[test]
fn colour_to_white_step_has_no_command() {
    let canvas = canvas_of(&[vec![Red, White, White, Yellow]]);
    let mut interpreter = Interpreter::new();
    let state = interpreter.get_next_state(&canvas, PointerAspect::CC);
    assert_eq!(state, CodeState::Continue(None));
    assert_eq!(interpreter.current_coordinate(), (1, 0));
    let state = interpreter.get_next_state(&canvas, PointerAspect::CC);
    assert_eq!(state, CodeState::Continue(None));
    assert_eq!(interpreter.current_coordinate(), (3, 0));
}

#[test]
fn slide_turns_at_black() {
    let canvas = canvas_of(&[vec![White, Black], vec![Yellow, Black]]);
    let mut interpreter = Interpreter::new();
    let state = interpreter.get_next_state(&canvas, PointerAspect::CC);
    assert_eq!(state, CodeState::Continue(None));
    assert_eq!(interpreter.cc(), CC::Right);
    assert_eq!(interpreter.dp(), DP::South);
    assert_eq!(interpreter.current_coordinate(), (0, 1));
}

#[test]
fn slide_ends_where_it_retreads() {
    let canvas = canvas_of(&[vec![White, White]]);
    let mut interpreter = Interpreter::new();
    assert!(interpreter.can_step(&canvas));
    let state = interpreter.get_next_state(&canvas, PointerAspect::CC);
    assert_eq!(state, CodeState::Terminate);
    assert_eq!(interpreter.current_coordinate(), (0, 0));
    assert!(canvas.is_colour(interpreter.current_coordinate(), PietColour::White));
}

#[test]
fn blocked_block_asks_to_change_the_pointer() {
    let canvas = canvas_of(&[vec![Red, Black]]);
    let mut interpreter = Interpreter::new();
    let state = interpreter.get_next_state(&canvas, PointerAspect::DP);
    assert_eq!(state, CodeState::ModifyPointer(PointerAspect::DP));
    assert_eq!(interpreter.current_coordinate(), (0, 0));
    assert_eq!(interpreter.dp(), DP::East);
}

#[test]
fn dp_and_cc_pick_the_exit() {
    // A red plus in the middle, yellow around it.
    let canvas = canvas_of(&[
        vec![Yellow, Yellow, Yellow, Yellow, Yellow],
        vec![Yellow, Yellow, Red, Yellow, Yellow],
        vec![Yellow, Red, Red, Red, Blue],
        vec![Yellow, Yellow, Red, Yellow, Yellow],
        vec![Yellow, Yellow, Yellow, Yellow, Yellow],
    ]);
    let mut reached: Vec<(DP, CC, (usize, usize))> = Vec::new();
    for dp in [DP::North, DP::East, DP::South, DP::West] {
        for cc in [CC::Left, CC::Right] {
            let mut interpreter = Interpreter::from_data(dp, cc, (2, 2), 0, false);
            let state = interpreter.get_next_state(&canvas, PointerAspect::CC);
            assert!(matches!(state, CodeState::Continue(Some(_))));
            reached.push((dp, cc, interpreter.current_coordinate()));
        }
    }
    assert_eq!(reached, vec![
        (DP::North, CC::Left, (2, 0)),
        (DP::North, CC::Right, (2, 0)),
        (DP::East, CC::Left, (4, 2)),
        (DP::East, CC::Right, (4, 2)),
        (DP::South, CC::Left, (2, 4)),
        (DP::South, CC::Right, (2, 4)),
        (DP::West, CC::Left, (0, 2)),
        (DP::West, CC::Right, (0, 2)),
    ]);
}

#[test]
fn codel_chooser_picks_between_ties() {
    let canvas = canvas_of(&[
        vec![Red, Red, Yellow],
        vec![Red, Black, Black],
        vec![Red, Red, Blue],
    ]);
    let mut left = Interpreter::from_data(DP::East, CC::Left, (0, 1), 0, false);
    left.get_next_state(&canvas, PointerAspect::CC);
    assert_eq!(left.current_coordinate(), (2, 0));
    let mut right = Interpreter::from_data(DP::East, CC::Right, (0, 1), 0, false);
    right.get_next_state(&canvas, PointerAspect::CC);
    assert_eq!(right.current_coordinate(), (2, 2));
}

#[test]
fn a_white_codel_walled_in_is_a_trap() {
    let canvas = canvas_of(&[vec![Black, White, Black]]);
    let trapped = Interpreter::from_data(DP::East, CC::Left, (1, 0), 0, false);
    assert!(!trapped.can_step(&canvas));
    let canvas = canvas_of(&[vec![Red, White, Black]]);
    let free = Interpreter::from_data(DP::East, CC::Left, (1, 0), 0, false);
    assert!(free.can_step(&canvas));
    let on_colour = Interpreter::new();
    assert!(on_colour.can_step(&canvas));
}

#[test]
fn process_state_executes_and_requests_io() {
    let mut interpreter = Interpreter::new();
    let (outcome, io) = interpreter.process_state(CodeState::Continue(Some(PietCommand::Push(5))));
    assert_eq!(outcome, ProcessStateOutcome::Continue);
    assert_eq!(io, IoRequest::Nothing);
    let (_, io) = interpreter.process_state(CodeState::Continue(Some(PietCommand::Duplicate)));
    assert_eq!(io, IoRequest::Nothing);
    let (_, io) = interpreter.process_state(CodeState::Continue(Some(PietCommand::OutputNum)));
    assert_eq!(io, IoRequest::WriteNum(5));
    let (_, io) = interpreter.process_state(CodeState::Continue(Some(PietCommand::InputNum)));
    assert_eq!(io, IoRequest::ReadNum);
    interpreter.input_num(65);
    let (_, io) = interpreter.process_state(CodeState::Continue(Some(PietCommand::OutputChar)));
    assert_eq!(io, IoRequest::WriteChar('A'));
    let (_, io) = interpreter.process_state(CodeState::Continue(Some(PietCommand::InputChar)));
    assert_eq!(io, IoRequest::ReadChar);
    interpreter.input_char('z');
    assert_eq!(interpreter.stack_values(), &vec![5, 122]);
    let (outcome, io) = interpreter.process_state(CodeState::ModifyPointer(PointerAspect::DP));
    assert_eq!(outcome, ProcessStateOutcome::ModifyPointer(PointerAspect::DP));
    assert_eq!(io, IoRequest::Nothing);
    assert_eq!(interpreter.dp(), DP::South);
    let (outcome, _) = interpreter.process_state(CodeState::Terminate);
    assert_eq!(outcome, ProcessStateOutcome::Terminate);
    let (outcome, _) = interpreter.process_state(CodeState::Error);
    assert_eq!(outcome, ProcessStateOutcome::Terminate);
}

#[test]
fn commands_that_would_overflow_cannot_run() {
    let mut interpreter = Interpreter::new();
    interpreter.input_num(i64::MAX);
    interpreter.input_num(1);
    assert!(!interpreter.can_execute(Some(PietCommand::Add)));
    assert!(interpreter.can_execute(Some(PietCommand::Subtract)));
    assert!(interpreter.can_execute(Some(PietCommand::Pop)));
    let mut interpreter = Interpreter::new();
    interpreter.input_num(3);
    interpreter.input_num(0);
    assert!(!interpreter.can_execute(Some(PietCommand::Divide)));
    assert!(!interpreter.can_execute(Some(PietCommand::Modulo)));
    let mut interpreter = Interpreter::new();
    interpreter.input_num(-1);
    interpreter.input_num(2);
    assert!(!interpreter.can_execute(Some(PietCommand::Roll)));
    assert!(interpreter.can_execute(None));
}

#[test]
fn modify_pointer_turns_and_flips() {
    let mut interpreter = Interpreter::new();
    interpreter.modify_pointer(PointerAspect::CC);
    assert_eq!(interpreter.cc(), CC::Right);
    interpreter.modify_pointer(PointerAspect::CC);
    assert_eq!(interpreter.cc(), CC::Left);
    for expected in [DP::South, DP::West, DP::North, DP::East] {
        interpreter.modify_pointer(PointerAspect::DP);
        assert_eq!(interpreter.dp(), expected);
    }
    interpreter.modify_pointer(PointerAspect::Both);
    assert_eq!((interpreter.dp(), interpreter.cc()), (DP::South, CC::Right));
}

#[test]
fn run_state_records_outcomes() {
    let mut run = RunState::new();
    assert!(run.running(10));
    assert!(!run.running(0));
    assert_eq!(run.pointer_aspect(), PointerAspect::CC);
    run.record(ProcessStateOutcome::ModifyPointer(PointerAspect::CC));
    assert_eq!(run.pointer_aspect(), PointerAspect::DP);
    run.record(ProcessStateOutcome::ModifyPointer(PointerAspect::DP));
    assert_eq!(run.pointer_aspect(), PointerAspect::CC);
    run.record(ProcessStateOutcome::Continue);
    assert_eq!(run.heartbeats(), 1);
    for _ in 0..3 {
        run.record(ProcessStateOutcome::ModifyPointer(PointerAspect::DP));
        assert!(run.running(10));
    }
    run.record(ProcessStateOutcome::ModifyPointer(PointerAspect::DP));
    assert!(!run.running(10));
    let mut run = RunState::new();
    run.record(ProcessStateOutcome::Terminate);
    assert!(!run.running(10));
}

#[test]
fn a_small_program_runs() {
    // Push 2, push 1, subtract, output the number.
    let canvas = canvas_of(&[vec![LightRed, LightRed, Red, DarkRed, LightYellow, Red, Black]]);
    let mut interpreter = Interpreter::new();
    let mut run = RunState::new();
    let mut printed: Vec<i64> = Vec::new();
    while run.running(4) {
        assert!(interpreter.can_step(&canvas));
        let state = interpreter.get_next_state(&canvas, run.pointer_aspect());
        if let CodeState::Continue(command) = state {
            assert!(interpreter.can_execute(command));
        }
        let (outcome, io) = interpreter.process_state(state);
        if let IoRequest::WriteNum(n) = io {
            printed.push(n);
        }
        run.record(outcome);
    }
    assert_eq!(printed, vec![1]);
    assert!(interpreter.stack_values().is_empty());
    assert_eq!(run.heartbeats(), 4);
    assert_eq!(interpreter.current_coordinate(), (5, 0));
}

#[test]
fn move_coord_steps_from_any_codel() {
    let canvas = canvas_of(&[vec![Red, Yellow, Black, Green], vec![Blue, Blue, Blue, Blue]]);
    let mut interpreter = Interpreter::new();
    // The interpreter stands at (0, 0); the move starts from (0, 1), a codel
    // of another block, and leads east.
    assert!(canvas.move_coord(&mut interpreter, (0, 1)));
    assert_eq!(interpreter.current_coordinate(), (1, 1));
    let mut interpreter = Interpreter::new();
    assert!(!canvas.move_coord(&mut interpreter, (3, 1)));
    assert_eq!(interpreter.current_coordinate(), (0, 0));
    assert!(!canvas.move_coord(&mut interpreter, (1, 0)));
    assert_eq!(interpreter.current_coordinate(), (0, 0));
}
