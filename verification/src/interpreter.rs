use vstd::prelude::*;

use crate::canvas::{BlockSize, Canvas, Coordinate};
use crate::palette::PietColour;
use crate::surface::{Atlas, on_edge, spec_transition};

pub mod commands;
mod step;
mod execute;

pub use step::{
    Slide, codel_under, command_for, dp_number, exit_of, lemma_exit_in_bounds, lemma_slide_end, lemma_slide_ends_on_repeat,
    lemma_slide_ignores_stack, lemma_slide_settles, lemma_slide_step_moves, moves_on_from, place_of, placed,
    slide_after, slide_end, slide_ends, slide_move_safe, slide_ok, slide_ok_at, slide_start,
    slide_step, spec_command, step_ok, turned_both,
};
pub use execute::{
    IoRequest, RunState, command_ok, executed, io_of, lemma_binary_commands, lemma_division_commands,
    lemma_duplicate_then_pop, lemma_flip_twice, lemma_four_turns_back, lemma_pointer_switch, lemma_pointer_undone,
    lemma_push_then_pop, lemma_roll_once, lemma_rotated_undone, lemma_short_stack_commands, lemma_switch_twice,
    lemma_unary_commands,
};

verus! {

/// The commands that a change of colour between two blocks encodes.
#[derive(Debug, Clone, Copy, PartialEq, Eq, Structural)]
pub enum PietCommand {
    Push(BlockSize),
    Pop,
    Add,
    Subtract,
    Multiply,
    Divide,
    Modulo,
    Not,
    Greater,
    Pointer,
    Switch,
    Duplicate,
    Roll,
    InputNum,
    InputChar,
    OutputNum,
    OutputChar,
}

/// The stack of a Piet program.
pub type PietStack = Vec<i64>;

/// The index of a chart of an artwork.
pub type ChartIndex = usize;

/// The direction pointer.
#[derive(Debug, Clone, Copy, PartialEq, Eq, Structural)]
pub enum DP {
    North,
    East,
    South,
    West,
}

/// The codel chooser.
#[derive(Debug, Clone, Copy, PartialEq, Eq, Structural)]
pub enum CC {
    Left,
    Right,
}

/// Which pointer to change when the interpreter cannot leave a block.
#[derive(Debug, Clone, Copy, PartialEq, Eq, Structural)]
pub enum PointerAspect {
    CC,
    DP,
    Both,
}

/// The direction one quarter turn clockwise from `dp`.
pub open spec fn clockwise(dp: DP) -> DP {
    match dp {
        DP::North => DP::East,
        DP::East => DP::South,
        DP::South => DP::West,
        DP::West => DP::North,
    }
}

/// The direction one quarter turn anticlockwise from `dp`.
pub open spec fn anticlockwise(dp: DP) -> DP {
    match dp {
        DP::North => DP::West,
        DP::West => DP::South,
        DP::South => DP::East,
        DP::East => DP::North,
    }
}

/// The direction `k` quarter turns clockwise from `dp`.
pub open spec fn clockwise_n(dp: DP, k: nat) -> DP
    decreases k,
{
    if k == 0 { dp } else { clockwise(clockwise_n(dp, (k - 1) as nat)) }
}

/// The other codel chooser.
pub open spec fn flipped(cc: CC) -> CC {
    match cc {
        CC::Left => CC::Right,
        CC::Right => CC::Left,
    }
}

enum StepState {
    StepWhite,
    StepColour,
    HitBlack,
}

enum MoveState {
    Continue(Option<PietCommand>),
    ChangePointerState,
    Terminate,
    Error,
}

/// What one step of the interpreter found.
#[derive(Debug, Clone, Copy, PartialEq, Eq, Structural)]
pub enum CodeState {
    /// The interpreter could not leave its block: change this pointer.
    ModifyPointer(PointerAspect),
    /// The interpreter moved, and the move encodes this command, if any.
    Continue(Option<PietCommand>),
    /// The program has ended.
    Terminate,
    /// The interpreter stood where it cannot stand.
    Error,
}

/// What the interpreter did with the outcome of a step.
#[derive(Debug, Clone, Copy, PartialEq, Eq, Structural)]
pub enum ProcessStateOutcome {
    Continue,
    ModifyPointer(PointerAspect),
    Terminate,
}

/// The code state that a move state stands for.
spec fn spec_code_state(value: MoveState) -> CodeState {
    match value {
        MoveState::Continue(command) => CodeState::Continue(command),
        MoveState::ChangePointerState => CodeState::ModifyPointer(PointerAspect::Both),
        MoveState::Terminate => CodeState::Terminate,
        MoveState::Error => CodeState::Error,
    }
}

impl From<MoveState> for CodeState {
    fn from(value: MoveState) -> (r: CodeState) {
        match value {
            MoveState::Continue(command) => CodeState::Continue(command),
            MoveState::ChangePointerState => CodeState::ModifyPointer(PointerAspect::Both),
            MoveState::Terminate => CodeState::Terminate,
            MoveState::Error => CodeState::Error,
        }
    }
}

impl vstd::std_specs::convert::FromSpecImpl<MoveState> for CodeState {
    closed spec fn obeys_from_spec() -> bool {
        true
    }

    closed spec fn from_spec(value: MoveState) -> CodeState {
        spec_code_state(value)
    }
}

/// The state of an interpreter, as a mathematical value.
pub struct InterpreterView {
    pub stack: Seq<i64>,
    pub dp: DP,
    pub cc: CC,
    pub coordinate: Coordinate,
    pub chart: ChartIndex,
    pub reversed: bool,
}

/// Where `rotate_dp(n)` turns the direction pointer of a state: `n` quarter
/// turns clockwise; on a reversed chart the turn is one quarter turn
/// anticlockwise followed by `n - 1` clockwise, when `n` is not a multiple of 4.
pub open spec fn rotated(s: InterpreterView, n: int) -> DP {
    if s.reversed {
        if n % 4 == 0 { s.dp } else { clockwise_n(anticlockwise(s.dp), ((n - 1) % 4) as nat) }
    } else {
        clockwise_n(s.dp, (n % 4) as nat)
    }
}

/// What `modify_pointer(aspect)` makes of a state.
pub open spec fn modified(s: InterpreterView, aspect: PointerAspect) -> InterpreterView {
    match aspect {
        PointerAspect::CC => InterpreterView { cc: flipped(s.cc), ..s },
        PointerAspect::DP => InterpreterView { dp: rotated(s, 1), ..s },
        PointerAspect::Both => InterpreterView { cc: flipped(s.cc), dp: rotated(InterpreterView { cc: flipped(s.cc), ..s }, 1), ..s },
    }
}

/// A Piet interpreter: its stack, direction pointer, codel chooser, position
/// and whether it runs on a reversed chart.
pub struct Interpreter {
    stack: PietStack,
    dp: DP,
    cc: CC,
    current_coordinate: Coordinate,
    current_chart_index: ChartIndex,
    reversed: bool,
}

impl View for Interpreter {
    type V = InterpreterView;

    closed spec fn view(&self) -> InterpreterView {
        InterpreterView {
            stack: self.stack@,
            dp: self.dp,
            cc: self.cc,
            coordinate: self.current_coordinate,
            chart: self.current_chart_index,
            reversed: self.reversed,
        }
    }
}

/// Euclidean remainder by a small positive modulus.
pub(crate) fn rem_euclid(n: i64, m: i64) -> (r: i64)
    requires
        m > 0,
    ensures
        r == n % m,
        0 <= r < m,
{
    match n.checked_rem_euclid(m) {
        Some(r) => r,
        None => 0,
    }
}

impl Interpreter {
    /// An interpreter at the north-west codel of chart 0, with an empty stack,
    /// the direction pointer east and the codel chooser left.
    pub fn new() -> (i: Interpreter)
        ensures
            i@ == (InterpreterView { stack: Seq::empty(), dp: DP::East, cc: CC::Left, coordinate: (0, 0), chart: 0, reversed: false }),
    {
        Interpreter { stack: Vec::new(), dp: DP::East, cc: CC::Left, current_coordinate: (0, 0), current_chart_index: 0, reversed: false }
    }

    /// An interpreter with an empty stack and the given pointers and position.
    pub fn from_data(dp: DP, cc: CC, current_coordinate: Coordinate, current_chart_index: ChartIndex, reversed: bool) -> (i: Interpreter)
        ensures
            i@ == (InterpreterView { stack: Seq::empty(), dp, cc, coordinate: current_coordinate, chart: current_chart_index, reversed }),
    {
        Interpreter { stack: Vec::new(), dp, cc, current_coordinate, current_chart_index, reversed }
    }

    /// The stack, as a value.
    pub fn stack_values(&self) -> (s: &Vec<i64>)
        ensures
            s@ == self@.stack,
    {
        &self.stack
    }

    pub fn dp(&self) -> (d: DP)
        ensures
            d == self@.dp,
    {
        self.dp
    }

    fn rotate_dp_right(&mut self, n: i64)
        ensures
            final(self)@ == (InterpreterView { dp: clockwise_n(old(self)@.dp, (n % 4) as nat), ..old(self)@ }),
        decreases n % 4,
    {
        if rem_euclid(n, 4) == 0 {
            return ();
        }
        match self.dp() {
            DP::North => { self.dp = DP::East },
            DP::East => { self.dp = DP::South },
            DP::South => { self.dp = DP::West },
            DP::West => { self.dp = DP::North },
        }
        let ghost turned = self.dp;
        self.rotate_dp_right(rem_euclid(n - 1, 4));
        proof {
            let k = (n % 4) as nat;
            assert((n - 1) % 4 == k - 1);
            assert(clockwise_n(old(self)@.dp, k) == clockwise(clockwise_n(old(self)@.dp, (k - 1) as nat)));
            lemma_clockwise_shift(old(self)@.dp, (k - 1) as nat);
        }
    }

    fn rotate_dp_left(&mut self, n: i64)
        ensures
            final(self)@ == (InterpreterView {
                dp: if n % 4 == 0 { old(self)@.dp } else { clockwise_n(anticlockwise(old(self)@.dp), ((n - 1) % 4) as nat) },
                ..old(self)@
            }),
    {
        if rem_euclid(n, 4) == 0 {
            return ();
        }
        match self.dp() {
            DP::North => { self.dp = DP::West },
            DP::West => { self.dp = DP::South },
            DP::South => { self.dp = DP::East },
            DP::East => { self.dp = DP::North },
        }
        self.rotate_dp_right(rem_euclid(n - 1, 4));
    }

    /// Turns the direction pointer `n` quarter turns clockwise (see `rotated`
    /// for reversed charts).
    fn rotate_dp(&mut self, n: i64)
        ensures
            final(self)@ == (InterpreterView { dp: rotated(old(self)@, n as int), ..old(self)@ }),
    {
        if self.reversed {
            self.rotate_dp_left(n);
        } else {
            self.rotate_dp_right(n);
        }
    }

    pub fn cc(&self) -> (c: CC)
        ensures
            c == self@.cc,
    {
        self.cc
    }

    fn flip_cc(&mut self)
        ensures
            final(self)@ == (InterpreterView { cc: flipped(old(self)@.cc), ..old(self)@ }),
    {
        match self.cc() {
            CC::Left => self.cc = CC::Right,
            CC::Right => self.cc = CC::Left,
        }
    }

    /// Flips the codel chooser `n` times: once if `n` is odd.
    fn flip_n_cc(&mut self, n: i64)
        ensures
            final(self)@ == (InterpreterView { cc: if n % 2 == 0 { old(self)@.cc } else { flipped(old(self)@.cc) }, ..old(self)@ }),
    {
        if rem_euclid(n, 2) == 0 {
            return ();
        }
        self.flip_cc();
    }

    /// Flips the codel chooser, turns the direction pointer a quarter turn, or both.
    pub fn modify_pointer(&mut self, pointer_aspect: PointerAspect)
        ensures
            final(self)@ == modified(old(self)@, pointer_aspect),
    {
        match pointer_aspect {
            PointerAspect::CC => self.flip_cc(),
            PointerAspect::DP => self.rotate_dp(1),
            PointerAspect::Both => {
                self.flip_cc();
                self.rotate_dp(1);
            },
        }
    }

    /// Flips the codel chooser and the orientation of the chart.
    fn reverse(&mut self)
        ensures
            final(self)@ == (InterpreterView { cc: flipped(old(self)@.cc), reversed: !old(self)@.reversed, ..old(self)@ }),
    {
        self.flip_cc();
        self.reversed = !self.reversed;
    }

    pub fn current_coordinate(&self) -> (c: Coordinate)
        ensures
            c == self@.coordinate,
    {
        self.current_coordinate
    }

    fn update_coordinate(&mut self, new_coordinate: Coordinate)
        ensures
            final(self)@ == (InterpreterView { coordinate: new_coordinate, ..old(self)@ }),
    {
        self.current_coordinate = new_coordinate;
    }

    pub fn current_chart_index(&self) -> (c: ChartIndex)
        ensures
            c == self@.chart,
    {
        self.current_chart_index
    }

    fn update_chart_index(&mut self, new_index: ChartIndex)
        ensures
            final(self)@ == (InterpreterView { chart: new_index, ..old(self)@ }),
    {
        self.current_chart_index = new_index;
    }
}

/// The state after a move to `coordinate` of chart `chart`, entering it
/// reversed when `reverse` holds (which also flips the codel chooser).
pub open spec fn moved_to(s: InterpreterView, chart: ChartIndex, coordinate: Coordinate, reverse: bool) -> InterpreterView {
    if reverse {
        InterpreterView { chart, coordinate, cc: flipped(s.cc), reversed: !s.reversed, ..s }
    } else {
        InterpreterView { chart, coordinate, ..s }
    }
}

/// Something the interpreter can run on: one or more charts, each a canvas,
/// and a rule for moving from codel to codel.
pub trait Interpretable {
    /// The canvas of chart `index`, if there is such a chart.
    spec fn spec_chart(&self, index: ChartIndex) -> Option<Canvas>;

    /// Every chart is a well-formed canvas.
    spec fn spec_ok(&self) -> bool;

    /// Where an interpreter in state `s` gets by stepping from `coordinate`
    /// in the direction of its pointer: the chart, the codel, and whether it
    /// enters that chart reversed; `None` where the step is blocked.
    spec fn spec_move(&self, s: InterpreterView, coordinate: Coordinate) -> Option<(ChartIndex, Coordinate, bool)>;

    /// Moves never lead to a chart with an index above this one, unless they
    /// stay on their chart.
    spec fn spec_chart_bound(&self) -> ChartIndex;

    /// The number of charts, as the lexer counts them.
    spec fn spec_max_chart_index(&self) -> ChartIndex;

    /// The move of an interpreter in state `s` from `coordinate` can be made:
    /// where it leads over an edge, it lands on a codel, not black, of a chart.
    spec fn spec_move_safe(&self, s: InterpreterView, coordinate: Coordinate) -> bool;

    /// A safe move from a codel of an existing chart ends on a codel, not
    /// black, of an existing chart, whose index stays within the bound.
    proof fn lemma_move_valid(&self, s: InterpreterView, coordinate: Coordinate)
        requires
            self.spec_ok(),
            self.spec_chart(s.chart) matches Some(cv) && cv.in_bounds(coordinate),
            self.spec_move_safe(s, coordinate),
        ensures
            self.spec_move(s, coordinate) matches Some((ch, c, _)) ==> {
                &&& self.spec_chart(ch) matches Some(cv) && cv.in_bounds(c)
                    && !(cv.spec_codel(c).spec_colour_name() == PietColour::Black)
                &&& (ch == s.chart || ch <= self.spec_chart_bound())
            },
    ;

    /// Where a move leads, and whether it is safe, depends neither on the
    /// codel chooser, nor on the chart's orientation, nor on the stack.
    proof fn lemma_move_ignores(&self, s: InterpreterView, coordinate: Coordinate)
        ensures
            forall|cc: CC, rev: bool, stack: Seq<i64>|
                self.spec_move(InterpreterView { cc, reversed: rev, stack, ..s }, coordinate) == #[trigger] self.spec_move(s, coordinate),
            forall|cc: CC, rev: bool, stack: Seq<i64>|
                self.spec_move_safe(InterpreterView { cc, reversed: rev, stack, ..s }, coordinate) == #[trigger] self.spec_move_safe(s, coordinate),
    ;

    /// Every chart that exists is a well-formed canvas.
    proof fn lemma_charts_ok(&self, index: ChartIndex)
        requires
            self.spec_ok(),
        ensures
            self.spec_chart(index) matches Some(cv) ==> cv.wf(),
    ;

    /// The canvas of the interpreter's chart.
    fn current_canvas(&self, interpreter: &Interpreter) -> (c: &Canvas)
        requires
            self.spec_ok(),
            self.spec_chart(interpreter@.chart) is Some,
        ensures
            self.spec_chart(interpreter@.chart) == Some(*c),
    ;

    /// The canvas of chart `index`, if there is such a chart.
    fn canvas_from_index(&self, index: ChartIndex) -> (c: Option<&Canvas>)
        requires
            self.spec_ok(),
        ensures
            match c {
                Some(cv) => self.spec_chart(index) == Some(*cv),
                None => self.spec_chart(index) is None,
            },
    ;

    /// Steps from `coordinate` in the direction of the pointer; `false`, with
    /// nothing changed, where the step is blocked.
    fn move_coord(&self, interpreter: &mut Interpreter, coordinate: Coordinate) -> (moved: bool)
        requires
            self.spec_ok(),
            self.spec_chart(old(interpreter)@.chart) matches Some(cv) && cv.in_bounds(coordinate),
            self.spec_move_safe(old(interpreter)@, coordinate),
        ensures
            match self.spec_move(old(interpreter)@, coordinate) {
                None => !moved && final(interpreter)@ == old(interpreter)@,
                Some((ch, c, rev)) => moved && final(interpreter)@ == moved_to(old(interpreter)@, ch, c, rev),
            },
    ;

    /// Whether the move of the interpreter from `coordinate` is safe (see
    /// `spec_move_safe`).
    fn move_is_safe(&self, interpreter: &Interpreter, coordinate: Coordinate) -> (r: bool)
        requires
            self.spec_ok(),
            self.spec_chart(interpreter@.chart) matches Some(cv) && cv.in_bounds(interpreter@.coordinate)
                && cv.in_bounds(coordinate),
        ensures
            r == self.spec_move_safe(interpreter@, coordinate),
    ;

    /// The number of charts, as the lexer counts them.
    fn max_chart_index(&self) -> (n: ChartIndex)
        ensures
            n == self.spec_max_chart_index(),
    ;

    /// Whether the codel at `coordinate` of the interpreter's chart is white.
    fn is_white(&self, interpreter: &Interpreter, coordinate: Coordinate) -> (b: bool)
        requires
            self.spec_ok(),
            self.spec_chart(interpreter@.chart) matches Some(cv) && cv.in_bounds(coordinate),
        ensures
            b == (self.spec_chart(interpreter@.chart).unwrap().spec_codel(coordinate).spec_colour_name() == PietColour::White),
    {
        proof {
            self.lemma_charts_ok(interpreter@.chart);
        }
        self.current_canvas(interpreter).is_colour(coordinate, PietColour::White)
    }
}

/// The neighbour of `(x, y)` in direction `dp` on a canvas, unless `(x, y)`
/// lies on the canvas's edge in that direction.
pub open spec fn neighbour(canvas: Canvas, dp: DP, c: Coordinate) -> Option<Coordinate> {
    match dp {
        DP::North => if c.1 == 0 { None } else { Some((c.0, (c.1 - 1) as usize)) },
        DP::East => if c.0 == canvas.spec_width() - 1 { None } else { Some(((c.0 + 1) as usize, c.1)) },
        DP::South => if c.1 == canvas.spec_height() - 1 { None } else { Some((c.0, (c.1 + 1) as usize)) },
        DP::West => if c.0 == 0 { None } else { Some(((c.0 - 1) as usize, c.1)) },
    }
}

impl Interpretable for Canvas {
    open spec fn spec_chart(&self, index: ChartIndex) -> Option<Canvas> {
        Some(*self)
    }

    open spec fn spec_ok(&self) -> bool {
        self.wf()
    }

    open spec fn spec_move(&self, s: InterpreterView, coordinate: Coordinate) -> Option<(ChartIndex, Coordinate, bool)> {
        match neighbour(*self, s.dp, coordinate) {
            None => None,
            Some(n) => if self.spec_codel(n).spec_colour_name() == PietColour::Black { None } else { Some((s.chart, n, false)) },
        }
    }

    open spec fn spec_chart_bound(&self) -> ChartIndex {
        0
    }

    open spec fn spec_max_chart_index(&self) -> ChartIndex {
        1
    }

    open spec fn spec_move_safe(&self, s: InterpreterView, coordinate: Coordinate) -> bool {
        true
    }

    proof fn lemma_move_valid(&self, s: InterpreterView, coordinate: Coordinate) {
    }

    proof fn lemma_move_ignores(&self, s: InterpreterView, coordinate: Coordinate) {
    }

    proof fn lemma_charts_ok(&self, index: ChartIndex) {
    }

    fn current_canvas(&self, _interpreter: &Interpreter) -> (c: &Canvas) {
        self
    }

    fn move_is_safe(&self, _interpreter: &Interpreter, _coordinate: Coordinate) -> (r: bool) {
        true
    }

    fn canvas_from_index(&self, _index: ChartIndex) -> (c: Option<&Canvas>) {
        Some(self)
    }

    fn move_coord(&self, interpreter: &mut Interpreter, coordinate: Coordinate) -> (moved: bool) {
        let from_boundary = match interpreter.dp() {
            DP::North => self.is_northmost(coordinate),
            DP::East => self.is_eastmost(coordinate),
            DP::South => self.is_southmost(coordinate),
            DP::West => self.is_westmost(coordinate),
        };
        if from_boundary {
            return false;
        }
        let (x, y) = coordinate;
        let new_coord = match interpreter.dp() {
            DP::North => (x, y - 1),
            DP::East => (x + 1, y),
            DP::South => (x, y + 1),
            DP::West => (x - 1, y),
        };
        if self.is_colour(new_coord, PietColour::Black) {
            return false;
        }
        interpreter.update_coordinate(new_coord);
        true
    }

    fn max_chart_index(&self) -> (n: ChartIndex) {
        1
    }
}

impl Interpretable for Atlas {
    open spec fn spec_chart(&self, index: ChartIndex) -> Option<Canvas> {
        if index < self.spec_charts().len() {
            Some(self.spec_charts()[index as int].spec_canvas())
        } else {
            None
        }
    }

    open spec fn spec_ok(&self) -> bool {
        self.charts_wf()
    }

    /// Within a chart a move is always safe; over an edge it is safe where
    /// the way over is (see `transition_safe`).
    open spec fn spec_move_safe(&self, s: InterpreterView, coordinate: Coordinate) -> bool {
        match self.spec_chart(s.chart) {
            Some(cv) => on_edge(cv, s.dp, coordinate) ==> self.transition_safe(s),
            None => true,
        }
    }

    /// Within a chart as on a canvas; over an edge, to where the topology
    /// leads, if anywhere.
    open spec fn spec_move(&self, s: InterpreterView, coordinate: Coordinate) -> Option<(ChartIndex, Coordinate, bool)> {
        match self.spec_chart(s.chart) {
            None => None,
            Some(cv) => if on_edge(cv, s.dp, coordinate) {
                match spec_transition(self.spec_topology(), s.dp, s.chart) {
                    None => None,
                    Some((to, rev)) => match self.spec_transition_coord(s, s.chart, to, rev) {
                        None => None,
                        Some(nc) => Some((to, nc, rev)),
                    },
                }
            } else {
                match neighbour(cv, s.dp, coordinate) {
                    None => None,
                    Some(n) => if cv.spec_codel(n).spec_colour_name() == PietColour::Black { None } else { Some((s.chart, n, false)) },
                }
            },
        }
    }

    open spec fn spec_chart_bound(&self) -> ChartIndex {
        self.spec_charts().len() as usize
    }

    open spec fn spec_max_chart_index(&self) -> ChartIndex {
        self.spec_charts().len() as usize
    }

    proof fn lemma_move_valid(&self, s: InterpreterView, coordinate: Coordinate) {
    }

    proof fn lemma_move_ignores(&self, s: InterpreterView, coordinate: Coordinate) {
    }

    proof fn lemma_charts_ok(&self, index: ChartIndex) {
        if index < self.spec_charts().len() {
            assert(self.spec_charts()[index as int].spec_canvas().wf());
        }
    }

    fn current_canvas(&self, interpreter: &Interpreter) -> (c: &Canvas) {
        self.chart(interpreter.current_chart_index()).unwrap().canvas()
    }

    fn canvas_from_index(&self, index: ChartIndex) -> (c: Option<&Canvas>) {
        match self.chart(index) {
            Some(chart) => Some(chart.canvas()),
            None => None,
        }
    }

    fn move_coord(&self, interpreter: &mut Interpreter, coordinate: Coordinate) -> (moved: bool) {
        proof {
            self.lemma_charts_ok(interpreter@.chart);
        }
        let current_canvas = self.current_canvas(interpreter);
        let from_boundary = match interpreter.dp() {
            DP::North => current_canvas.is_northmost(coordinate),
            DP::East => current_canvas.is_eastmost(coordinate),
            DP::South => current_canvas.is_southmost(coordinate),
            DP::West => current_canvas.is_westmost(coordinate),
        };
        if from_boundary {
            let from_index = interpreter.current_chart_index();
            match self.transition_map().transition(interpreter, from_index) {
                Some((to_index, reverse)) => {
                    match self.transition_coord(interpreter, from_index, to_index, reverse) {
                        Some(new_coord) => {
                            proof {
                                self.lemma_charts_ok(to_index);
                            }
                            if !self.chart(to_index).unwrap().canvas().is_colour(new_coord, PietColour::Black) {
                                interpreter.update_chart_index(to_index);
                                interpreter.update_coordinate(new_coord);
                                if reverse {
                                    interpreter.reverse();
                                }
                                return true;
                            }
                        },
                        None => return false,
                    }
                },
                None => return false,
            }
        }
        let (x, y) = coordinate;
        let new_coord = match interpreter.dp() {
            DP::North => (x, y - 1),
            DP::East => (x + 1, y),
            DP::South => (x, y + 1),
            DP::West => (x - 1, y),
        };
        if current_canvas.is_colour(new_coord, PietColour::Black) {
            return false;
        }
        interpreter.update_coordinate(new_coord);
        true
    }

    fn move_is_safe(&self, interpreter: &Interpreter, coordinate: Coordinate) -> (r: bool) {
        proof {
            self.lemma_charts_ok(interpreter@.chart);
        }
        let current_canvas = self.current_canvas(interpreter);
        let from_boundary = match interpreter.dp() {
            DP::North => current_canvas.is_northmost(coordinate),
            DP::East => current_canvas.is_eastmost(coordinate),
            DP::South => current_canvas.is_southmost(coordinate),
            DP::West => current_canvas.is_westmost(coordinate),
        };
        if from_boundary {
            self.transition_is_safe(interpreter)
        } else {
            true
        }
    }

    fn max_chart_index(&self) -> (n: ChartIndex) {
        self.charts_len()
    }
}

/// `k` clockwise quarter turns after one is `k + 1` quarter turns.
pub proof fn lemma_clockwise_shift(dp: DP, k: nat)
    ensures
        clockwise_n(clockwise(dp), k) == clockwise_n(dp, k + 1),
    decreases k,
{
    if k > 0 {
        lemma_clockwise_shift(dp, (k - 1) as nat);
        assert(clockwise_n(clockwise(dp), k) == clockwise(clockwise_n(clockwise(dp), (k - 1) as nat)));
        assert(clockwise_n(dp, k + 1) == clockwise(clockwise_n(dp, k)));
    } else {
        assert(clockwise_n(dp, 1) == clockwise(clockwise_n(dp, 0)));
    }
}

} // verus!
