use piet::canvas::Canvas;
use piet::interpreter::{CC, CodeState, DP, Interpreter, PietCommand, PointerAspect};
use piet::lexer::{BlockTransition, Lexer, Operation};
use piet::palette::{rgba, PietColour};
use piet::palette::PietColour::{
    Black, Blue, Cyan, DarkBlue, DarkCyan, DarkGreen, DarkMagenta, DarkRed, DarkYellow, Green, LightBlue, LightCyan,
    LightGreen, LightMagenta, LightRed, LightYellow, Magenta, Red, White, Yellow,
};

fn canvas_of(rows: &[Vec<PietColour>]) -> Canvas {
    let mut pixels: Vec<u8> = Vec::new();
    for row in rows {
        for colour in row {
            pixels.extend_from_slice(&rgba(*colour));
        }
    }
    Canvas::from_rgba(rows[0].len() as u32, rows.len() as u32, &pixels, 1).expect("Failed to build canvas")
}

const POINTERS: [(DP, CC); 8] = [
    (DP::North, CC::Left),
    (DP::North, CC::Right),
    (DP::East, CC::Left),
    (DP::East, CC::Right),
    (DP::South, CC::Left),
    (DP::South, CC::Right),
    (DP::West, CC::Left),
    (DP::West, CC::Right),
];

#[test]
fn lexes_every_block_for_every_pointer() {
    let canvas = canvas_of(&[vec![Red, Yellow]]);
    let lexed = Lexer::lex(&canvas);
    assert_eq!(lexed.chart_count(), 1);
    assert_eq!(lexed.chart_at(0), Some((0, 2)));
    assert_eq!(lexed.chart_at(1), None);
    let to_yellow = |cc: CC| Operation::Continue(BlockTransition {
        new_chart_index: 0,
        new_block_index: 1,
        command: Some(PietCommand::Add),
        codel_chooser: cc,
        direction_pointer: DP::East,
    });
    assert_eq!(lexed.operation(0, 0, DP::East, CC::Left), Some(to_yellow(CC::Left)));
    assert_eq!(lexed.operation(0, 0, DP::East, CC::Right), Some(to_yellow(CC::Right)));
    // Blocked exits resolve by flipping the codel chooser, then turning.
    assert_eq!(lexed.operation(0, 0, DP::North, CC::Left), Some(to_yellow(CC::Right)));
    assert_eq!(lexed.operation(0, 0, DP::South, CC::Left), Some(to_yellow(CC::Right)));
    assert_eq!(lexed.operation(0, 1, DP::West, CC::Left), Some(Operation::Continue(BlockTransition {
        new_chart_index: 0,
        new_block_index: 0,
        command: Some(PietCommand::InputChar),
        codel_chooser: CC::Left,
        direction_pointer: DP::West,
    })));
    assert_eq!(lexed.operation(0, 2, DP::West, CC::Left), None);
}

#[test]
fn no_exit_stays_blocked() {
    let canvas = canvas_of(&[
        vec![Red, White, Blue],
        vec![Black, White, Black],
        vec![Green, Green, Green],
    ]);
    let lexed = Lexer::lex(&canvas);
    let (_, blocks) = lexed.chart_at(0).expect("one chart");
    assert_eq!(blocks, 3);
    for block in 0..blocks {
        for (dp, cc) in POINTERS {
            let op = lexed.operation(0, block, dp, cc).expect("a slot for each pointer");
            assert!(!matches!(op, Operation::ModifyPointer));
        }
    }
}

#[test]
fn moves_across_white_carry_no_command() {
    let canvas = canvas_of(&[vec![Red, White, Yellow]]);
    let lexed = Lexer::lex(&canvas);
    assert_eq!(lexed.operation(0, 0, DP::East, CC::Left), Some(Operation::Continue(BlockTransition {
        new_chart_index: 0,
        new_block_index: 1,
        command: None,
        codel_chooser: CC::Left,
        direction_pointer: DP::East,
    })));
}

#[test]
fn a_block_walled_in_terminates() {
    let canvas = canvas_of(&[vec![Red, Black]]);
    let lexed = Lexer::lex(&canvas);
    for (dp, cc) in POINTERS {
        assert_eq!(lexed.operation(0, 0, dp, cc), Some(Operation::Terminate));
    }
}

#[test]
fn lexer_agrees_with_a_step_from_any_codel_of_the_block() {
    // A red L whose east exits lie in different rows for the two choosers.
    let canvas = canvas_of(&[
        vec![Red, Red, Yellow],
        vec![Red, Black, Black],
        vec![Red, Red, Blue],
    ]);
    let lexed = Lexer::lex(&canvas);
    for start in [(0, 0), (0, 1), (1, 2)] {
        for cc in [CC::Left, CC::Right] {
            let mut interpreter = Interpreter::from_data(DP::East, cc, start, 0, false);
            let state = interpreter.get_next_state(&canvas, PointerAspect::CC);
            let block = canvas.get_block(interpreter.current_coordinate()).map(|b| b.index()).expect("coloured");
            let command = match state {
                CodeState::Continue(command) => command,
                _ => panic!("moves"),
            };
            assert_eq!(lexed.operation(0, 0, DP::East, cc), Some(Operation::Continue(BlockTransition {
                new_chart_index: 0,
                new_block_index: block,
                command,
                codel_chooser: cc,
                direction_pointer: DP::East,
            })));
        }
    }
}
