//! One step of the interpreter: leaving a coloured block through its exit
//! codel, or sliding across white codels.

use vstd::prelude::*;

use crate::canvas::{Canvas, Codel, CodelBlock, Coordinate, is_extreme};
use crate::interpreter::{
    CC, ChartIndex, CodeState, DP, Interpretable, Interpreter, InterpreterView, MoveState,
    PietCommand, PointerAspect, StepState, moved_to,
};
use crate::palette::PietColour;

verus! {

/// The command that a change of hue by `hue` steps and of lightness by
/// `light` steps encodes, leaving a block of `size` codels.
pub open spec fn command_for(hue: int, light: int, size: usize) -> Option<PietCommand> {
    if hue == 0 && light == 1 { Some(PietCommand::Push(size)) }
    else if hue == 0 && light == 2 { Some(PietCommand::Pop) }
    else if hue == 1 && light == 0 { Some(PietCommand::Add) }
    else if hue == 1 && light == 1 { Some(PietCommand::Subtract) }
    else if hue == 1 && light == 2 { Some(PietCommand::Multiply) }
    else if hue == 2 && light == 0 { Some(PietCommand::Divide) }
    else if hue == 2 && light == 1 { Some(PietCommand::Modulo) }
    else if hue == 2 && light == 2 { Some(PietCommand::Not) }
    else if hue == 3 && light == 0 { Some(PietCommand::Greater) }
    else if hue == 3 && light == 1 { Some(PietCommand::Pointer) }
    else if hue == 3 && light == 2 { Some(PietCommand::Switch) }
    else if hue == 4 && light == 0 { Some(PietCommand::Duplicate) }
    else if hue == 4 && light == 1 { Some(PietCommand::Roll) }
    else if hue == 4 && light == 2 { Some(PietCommand::InputNum) }
    else if hue == 5 && light == 0 { Some(PietCommand::InputChar) }
    else if hue == 5 && light == 1 { Some(PietCommand::OutputNum) }
    else if hue == 5 && light == 2 { Some(PietCommand::OutputChar) }
    else { None }
}

/// The command of a move from `from` on chart `from_chart` to `to` on chart
/// `to_chart`: none unless both codels are coloured; otherwise the one that
/// the hue change `(from - to) mod 6` and lightness change `(to - from) mod 3`
/// encode, pushing the size of the block left.
pub open spec fn spec_command<A: Interpretable>(a: &A, from_chart: ChartIndex, from: Coordinate, to_chart: ChartIndex, to: Coordinate) -> Option<PietCommand> {
    match (a.spec_chart(from_chart), a.spec_chart(to_chart)) {
        (Some(fc), Some(tc)) => {
            let f = fc.spec_codel(from);
            let t = tc.spec_codel(to);
            if f is Colour && t is Colour {
                match f.spec_block_index() {
                    Some(b) => command_for(
                        (f.spec_hue().unwrap() - t.spec_hue().unwrap()) % 6,
                        (t.spec_light().unwrap() - f.spec_light().unwrap()) % 3,
                        fc.spec_blocks()[b as int].spec_size(),
                    ),
                    None => None,
                }
            } else {
                None
            }
        },
        _ => None,
    }
}

/// A number for each direction, clockwise from north.
pub open spec fn dp_number(dp: DP) -> int {
    match dp {
        DP::North => 0,
        DP::East => 1,
        DP::South => 2,
        DP::West => 3,
    }
}

/// A number for each chart, codel and direction, distinct for distinct ones.
pub open spec fn walk_key(t: (ChartIndex, Coordinate, DP)) -> int {
    let m = usize::MAX as int + 1;
    ((t.0 as int * m + t.1.0 as int) * m + t.1.1 as int) * 4 + dp_number(t.2)
}

proof fn lemma_walk_key(t: (ChartIndex, Coordinate, DP), u: (ChartIndex, Coordinate, DP), bound: int)
    requires
        t.0 <= bound,
    ensures
        0 <= walk_key(t) < (bound + 1) * (usize::MAX as int + 1) * (usize::MAX as int + 1) * 4,
        walk_key(t) == walk_key(u) ==> t == u,
{
    let m = usize::MAX as int + 1;
    let a = t.0 as int * m + t.1.0 as int;
    let b = a * m + t.1.1 as int;
    assert(0 <= a < (bound + 1) * m) by (nonlinear_arith)
        requires a == t.0 as int * m + t.1.0 as int, 0 <= t.0 <= bound, 0 <= t.1.0 < m, m > 0;
    assert(0 <= b < (bound + 1) * m * m) by (nonlinear_arith)
        requires b == a * m + t.1.1 as int, 0 <= a < (bound + 1) * m, 0 <= t.1.1 < m, m > 0;
    assert(0 <= b * 4 + dp_number(t.2) < (bound + 1) * m * m * 4) by (nonlinear_arith)
        requires 0 <= b < (bound + 1) * m * m, 0 <= dp_number(t.2) < 4;
    if walk_key(t) == walk_key(u) {
        let a2 = u.0 as int * m + u.1.0 as int;
        let b2 = a2 * m + u.1.1 as int;
        vstd::arithmetic::div_mod::lemma_fundamental_div_mod_converse(walk_key(t), 4, b, dp_number(t.2));
        vstd::arithmetic::div_mod::lemma_fundamental_div_mod_converse(walk_key(t), 4, b2, dp_number(u.2));
        vstd::arithmetic::div_mod::lemma_fundamental_div_mod_converse(b, m, a, t.1.1 as int);
        vstd::arithmetic::div_mod::lemma_fundamental_div_mod_converse(b, m, a2, u.1.1 as int);
        vstd::arithmetic::div_mod::lemma_fundamental_div_mod_converse(a, m, t.0 as int, t.1.0 as int);
        vstd::arithmetic::div_mod::lemma_fundamental_div_mod_converse(a, m, u.0 as int, u.1.0 as int);
        assert(t.2 == u.2) by {
            match t.2 { DP::North => {}, DP::East => {}, DP::South => {}, DP::West => {} }
            match u.2 { DP::North => {}, DP::East => {}, DP::South => {}, DP::West => {} }
        }
    }
}

/// Where a slide across white stands: the interpreter's state, the white
/// codels (with chart and direction) that it has left so far, and, once it
/// has ended, whether it reached colour (`true`) or came back to where it had
/// been before (`false`).
pub struct Slide {
    pub s: InterpreterView,
    pub visited: Seq<(ChartIndex, Coordinate, DP)>,
    pub done: Option<bool>,
}

/// The start of a slide from state `s`.
pub open spec fn slide_start(s: InterpreterView) -> Slide {
    Slide { s, visited: Seq::empty(), done: None }
}

/// One step of a slide across white: where the interpreter has been before,
/// in the same direction, the slide ends; where the step is blocked, the codel
/// chooser flips and the direction pointer turns; otherwise the interpreter
/// moves, and the slide ends if it reached colour.
pub open spec fn slide_step<A: Interpretable>(a: &A, w: Slide) -> Slide {
    let here = (w.s.chart, w.s.coordinate, w.s.dp);
    if w.done is Some {
        w
    } else if w.visited.contains(here) {
        Slide { done: Some(false), ..w }
    } else {
        match a.spec_move(w.s, w.s.coordinate) {
            None => Slide { s: crate::interpreter::modified(w.s, PointerAspect::Both), ..w },
            Some((ch, c, rev)) => {
                let s2 = moved_to(w.s, ch, c, rev);
                if codel_under(a, s2).spec_colour_name() == PietColour::White {
                    Slide { s: s2, visited: w.visited.push(here), done: None }
                } else {
                    Slide { s: s2, visited: w.visited, done: Some(true) }
                }
            },
        }
    }
}

/// The slide after `n` steps.
pub open spec fn slide_after<A: Interpretable>(a: &A, w: Slide, n: nat) -> Slide
    decreases n,
{
    if n == 0 { w } else { slide_step(a, slide_after(a, w, (n - 1) as nat)) }
}

/// The slide from state `s` ends.
pub open spec fn slide_ends<A: Interpretable>(a: &A, s: InterpreterView) -> bool {
    exists|n: nat| (#[trigger] slide_after(a, slide_start(s), n)).done is Some
}

/// Where the slide from state `s` ends (meaningful where it ends).
pub open spec fn slide_end<A: Interpretable>(a: &A, s: InterpreterView) -> Slide {
    slide_after(a, slide_start(s), choose|n: nat| (#[trigger] slide_after(a, slide_start(s), n)).done is Some)
}

/// Once a slide has ended it stays as it is.
pub proof fn lemma_slide_settles<A: Interpretable>(a: &A, w: Slide, n: nat, m: nat)
    requires
        slide_after(a, w, n).done is Some,
        n <= m,
    ensures
        slide_after(a, w, m) == slide_after(a, w, n),
    decreases m,
{
    if m > n {
        lemma_slide_settles(a, w, n, (m - 1) as nat);
    }
}

/// A slide that has ended after `n` steps ends where `slide_end` says.
pub proof fn lemma_slide_end<A: Interpretable>(a: &A, s: InterpreterView, n: nat)
    requires
        slide_after(a, slide_start(s), n).done is Some,
    ensures
        slide_ends(a, s),
        slide_end(a, s) == slide_after(a, slide_start(s), n),
{
    let m = choose|m: nat| (#[trigger] slide_after(a, slide_start(s), m)).done is Some;
    if m <= n {
        lemma_slide_settles(a, slide_start(s), m, n);
    } else {
        lemma_slide_settles(a, slide_start(s), n, m);
    }
}

/// The chart, codel and direction of a state.
pub open spec fn place_of(s: InterpreterView) -> (ChartIndex, Coordinate, DP) {
    (s.chart, s.coordinate, s.dp)
}

/// After `m` steps the slide from `s` has not ended, stands at `t` (chart,
/// codel and direction), and moves on from there.
pub open spec fn moves_on_from<A: Interpretable>(a: &A, s: InterpreterView, m: nat, t: (ChartIndex, Coordinate, DP)) -> bool {
    let w = slide_after(a, slide_start(s), m);
    &&& w.done is None
    &&& place_of(w.s) == t
    &&& a.spec_move(w.s, w.s.coordinate) is Some
}

/// What a slide records of where it has been: exactly the places that it has
/// moved on from in the steps before, while it goes on.
proof fn lemma_slide_record<A: Interpretable>(a: &A, s: InterpreterView, n: nat)
    ensures
        forall|t: (ChartIndex, Coordinate, DP)| slide_after(a, slide_start(s), n).visited.contains(t)
            ==> exists|m: nat| m < n && #[trigger] moves_on_from(a, s, m, t),
        slide_after(a, slide_start(s), n).done is None ==> forall|m: nat, t: (ChartIndex, Coordinate, DP)|
            m < n && #[trigger] moves_on_from(a, s, m, t) ==> slide_after(a, slide_start(s), n).visited.contains(t),
    decreases n,
{
    if n > 0 {
        let k = (n - 1) as nat;
        lemma_slide_record(a, s, k);
        let w = slide_after(a, slide_start(s), k);
        let w2 = slide_after(a, slide_start(s), n);
        assert(w2 == slide_step(a, w));
        let here = (w.s.chart, w.s.coordinate, w.s.dp);
        assert forall|t: (ChartIndex, Coordinate, DP)| w2.visited.contains(t)
            implies exists|m: nat| m < n && #[trigger] moves_on_from(a, s, m, t) by {
            if w.visited.contains(t) {
                let m = choose|m: nat| m < k && #[trigger] moves_on_from(a, s, m, t);
                assert(m < n && moves_on_from(a, s, m, t));
            } else {
                assert(w2.visited != w.visited);
                assert(w2.visited == w.visited.push(here));
                assert(t == here);
                assert(moves_on_from(a, s, k, t));
            }
        }
        if w2.done is None {
            assert forall|m: nat, t: (ChartIndex, Coordinate, DP)| m < n && #[trigger] moves_on_from(a, s, m, t)
                implies w2.visited.contains(t) by {
                if m < k {
                    assert(w.done is None);
                    assert(w.visited.contains(t));
                    if w2.visited != w.visited {
                        assert(w2.visited == w.visited.push(here));
                        let i = choose|i: int| 0 <= i < w.visited.len() && w.visited[i] == t;
                        assert(w2.visited[i] == t);
                    }
                } else {
                    assert(w2.visited == w.visited.push(here));
                    assert(w2.visited[w.visited.len() as int] == here);
                }
            }
        }
    }
}

/// A slide across white ends without reaching colour exactly when it comes
/// back to a codel it has moved on from before, facing the direction in
/// which it moved on from it then: coming back to such a codel in another
/// direction lets it go on.
pub proof fn lemma_slide_ends_on_repeat<A: Interpretable>(a: &A, s: InterpreterView, n: nat)
    requires
        slide_after(a, slide_start(s), n).done is None,
    ensures
        slide_after(a, slide_start(s), n + 1).done == Some(false) <==>
            exists|m: nat| m < n && #[trigger] moves_on_from(a, s, m, place_of(slide_after(a, slide_start(s), n).s)),
{
    lemma_slide_record(a, s, n);
    let w = slide_after(a, slide_start(s), n);
    assert(slide_after(a, slide_start(s), n + 1) == slide_step(a, w));
    assert(place_of(w.s) == (w.s.chart, w.s.coordinate, w.s.dp));
}

/// One step of a slide that goes on, from a place it has not moved on from
/// before: where the way on is blocked, the slide stays on its codel, the
/// codel chooser flips and, on a chart that is not reversed, the direction
/// pointer turns a quarter turn clockwise; otherwise the slide moves to where
/// the way leads, and ends, having reached colour, exactly when that codel is
/// not white.
pub proof fn lemma_slide_step_moves<A: Interpretable>(a: &A, s: InterpreterView, n: nat)
    requires
        slide_after(a, slide_start(s), n).done is None,
        !(exists|m: nat| m < n && #[trigger] moves_on_from(a, s, m, place_of(slide_after(a, slide_start(s), n).s))),
    ensures
        ({
            let w = slide_after(a, slide_start(s), n);
            let w2 = slide_after(a, slide_start(s), n + 1);
            match a.spec_move(w.s, w.s.coordinate) {
                None => {
                    &&& w2.done is None
                    &&& w2.s.coordinate == w.s.coordinate
                    &&& w2.s.chart == w.s.chart
                    &&& w2.s.stack == w.s.stack
                    &&& w2.s.reversed == w.s.reversed
                    &&& w2.s.cc != w.s.cc
                    &&& (!w.s.reversed ==> w2.s.dp == crate::interpreter::clockwise(w.s.dp))
                },
                Some((ch, c, rev)) => {
                    &&& w2.s == moved_to(w.s, ch, c, rev)
                    &&& (w2.done is None) == (codel_under(a, w2.s).spec_colour_name() == PietColour::White)
                    &&& w2.done != Some(false)
                },
            }
        }),
{
    lemma_slide_ends_on_repeat(a, s, n);
    let w = slide_after(a, slide_start(s), n);
    assert(slide_after(a, slide_start(s), n + 1) == slide_step(a, w));
    reveal_with_fuel(crate::interpreter::clockwise_n, 2);
    match w.s.cc { CC::Left => {}, CC::Right => {} }
}

/// The move that a slide in state `w` attempts next, if any, is safe.
pub open spec fn slide_move_safe<A: Interpretable>(a: &A, w: Slide) -> bool {
    ||| w.done is Some
    ||| w.visited.contains((w.s.chart, w.s.coordinate, w.s.dp))
    ||| a.spec_move_safe(w.s, w.s.coordinate)
}

/// The slide from state `s` has ended after `n` steps, and every move that
/// it attempted before was safe.
pub open spec fn slide_ok_at<A: Interpretable>(a: &A, s: InterpreterView, n: nat) -> bool {
    &&& slide_after(a, slide_start(s), n).done is Some
    &&& forall|k: nat| k < n ==> #[trigger] slide_move_safe(a, slide_after(a, slide_start(s), k))
}

/// The slide from state `s` ends, and every move that it attempts is safe.
pub open spec fn slide_ok<A: Interpretable>(a: &A, s: InterpreterView) -> bool {
    exists|n: nat| #[trigger] slide_ok_at(a, s, n)
}

/// One step of the interpreter from state `s` can be taken: from colour, the
/// move out of the block is safe; from white, the slide ends and every move
/// it attempts is safe.
pub open spec fn step_ok<A: Interpretable>(a: &A, s: InterpreterView) -> bool {
    match codel_under(a, s) {
        Codel::Black => true,
        Codel::White => slide_ok(a, s),
        Codel::Colour(_) => a.spec_move_safe(s, exit_of(a, s)),
    }
}

/// The state after the codel chooser is flipped and the direction pointer
/// turned `k` times.
pub open spec fn turned_both(s: InterpreterView, k: nat) -> InterpreterView
    decreases k,
{
    if k == 0 { s } else { crate::interpreter::modified(turned_both(s, (k - 1) as nat), PointerAspect::Both) }
}

/// Four turns bring the pointers back, on a reversed chart too.
proof fn lemma_four_turns_both(s: InterpreterView)
    ensures
        turned_both(s, 4) == s,
{
    reveal_with_fuel(turned_both, 5);
    reveal_with_fuel(crate::interpreter::clockwise_n, 2);
    match s.dp {
        DP::North => {},
        DP::East => {},
        DP::South => {},
        DP::West => {},
    }
}

/// Slides from two states that differ only in their stacks go the same way.
pub proof fn lemma_slide_ignores_stack<A: Interpretable>(a: &A, s: InterpreterView, t: InterpreterView, n: nat)
    requires
        t == (InterpreterView { stack: t.stack, ..s }),
    ensures
        slide_after(a, slide_start(t), n) == (Slide {
            s: InterpreterView { stack: t.stack, ..slide_after(a, slide_start(s), n).s },
            ..slide_after(a, slide_start(s), n)
        }),
        slide_after(a, slide_start(s), n).s.stack == s.stack,
        slide_move_safe(a, slide_after(a, slide_start(t), n)) == slide_move_safe(a, slide_after(a, slide_start(s), n)),
    decreases n,
{
    if n > 0 {
        lemma_slide_ignores_stack(a, s, t, (n - 1) as nat);
        let w = slide_after(a, slide_start(s), (n - 1) as nat);
        a.lemma_move_ignores(w.s, w.s.coordinate);
        assert(a.spec_move(InterpreterView { cc: w.s.cc, reversed: w.s.reversed, stack: t.stack, ..w.s }, w.s.coordinate)
            == a.spec_move(w.s, w.s.coordinate));
    }
    let w = slide_after(a, slide_start(s), n);
    a.lemma_move_ignores(w.s, w.s.coordinate);
    assert(a.spec_move_safe(InterpreterView { cc: w.s.cc, reversed: w.s.reversed, stack: t.stack, ..w.s }, w.s.coordinate)
        == a.spec_move_safe(w.s, w.s.coordinate));
}

/// A slide that comes back to an earlier state, not ended, never ends.
proof fn lemma_slide_cycle<A: Interpretable>(a: &A, w: Slide, p: nat, q: nat, k: nat)
    requires
        p < q,
        slide_after(a, w, q) == slide_after(a, w, p),
        slide_after(a, w, p).done is None,
    ensures
        slide_after(a, w, k).done is None,
    decreases k,
{
    if k >= q {
        lemma_slide_cycle_shift(a, w, p, q, (k - q) as nat);
        lemma_slide_cycle(a, w, p, q, (k - (q - p)) as nat);
    } else if slide_after(a, w, k).done is Some {
        lemma_slide_settles(a, w, k, q);
    }
}

/// From an earlier state the slide repeats what followed it.
proof fn lemma_slide_cycle_shift<A: Interpretable>(a: &A, w: Slide, p: nat, q: nat, m: nat)
    requires
        slide_after(a, w, q) == slide_after(a, w, p),
    ensures
        slide_after(a, w, q + m) == slide_after(a, w, p + m),
    decreases m,
{
    if m > 0 {
        lemma_slide_cycle_shift(a, w, p, q, (m - 1) as nat);
        assert(slide_after(a, w, q + m) == slide_step(a, slide_after(a, w, (q + m - 1) as nat)));
        assert(slide_after(a, w, p + m) == slide_step(a, slide_after(a, w, (p + m - 1) as nat)));
    }
}

/// The interpreter stands on a codel of a chart that exists.
pub open spec fn placed<A: Interpretable>(a: &A, s: InterpreterView) -> bool {
    a.spec_chart(s.chart) matches Some(cv) && cv.in_bounds(s.coordinate)
}

/// The codel on which the interpreter stands.
pub open spec fn codel_under<A: Interpretable>(a: &A, s: InterpreterView) -> Codel {
    a.spec_chart(s.chart).unwrap().spec_codel(s.coordinate)
}

/// The exit codel of the block under the interpreter, for its pointers.
pub open spec fn exit_of<A: Interpretable>(a: &A, s: InterpreterView) -> Coordinate {
    let cv = a.spec_chart(s.chart).unwrap();
    cv.spec_blocks()[cv.spec_codel(s.coordinate).spec_block_index().unwrap() as int].spec_coord(s.dp, s.cc)
}

/// On a well-formed canvas, a coloured codel belongs to a block whose exit
/// codels lie on the canvas.
pub proof fn lemma_exit_in_bounds(cv: Canvas, c: Coordinate, dp: DP, cc: CC)
    requires
        cv.wf(),
        cv.in_bounds(c),
        cv.spec_codel(c) is Colour,
    ensures
        cv.spec_codel(c).spec_block_index() matches Some(b) && b < cv.spec_blocks().len()
            && cv.in_bounds(cv.spec_blocks()[b as int].spec_coord(dp, cc))
            && cv.spec_codel(cv.spec_blocks()[b as int].spec_coord(dp, cc)).spec_block_index() == Some(b),
{
    crate::canvas::lemma_flat_in_range(cv.spec_width(), cv.spec_height(), c);
    let i = crate::canvas::flat(cv.spec_height(), c);
    assert(!cv.spec_codels()[i].spec_no_index());
    let b = cv.spec_codel(c).spec_block_index().unwrap();
    assert(cv.spec_codels()[i].spec_block_index() matches Some(bb) ==> bb < cv.spec_blocks().len());
    assert(cv.block_ok(b as int));
    let blk = cv.spec_blocks()[b as int];
    assert(is_extreme(cv.cells(b), dp, cc, blk.spec_coord(dp, cc)));
}

/// The command that a move encodes (see `spec_command`).
fn get_command(
    artwork: &impl Interpretable,
    from_index: ChartIndex,
    from_coord: Coordinate,
    to_index: ChartIndex,
    to_coord: Coordinate,
) -> (r: Option<PietCommand>)
    requires
        artwork.spec_ok(),
        artwork.spec_chart(from_index) matches Some(cv) ==> cv.in_bounds(from_coord),
        artwork.spec_chart(to_index) matches Some(cv) ==> cv.in_bounds(to_coord),
    ensures
        r == spec_command(artwork, from_index, from_coord, to_index, to_coord),
{
    proof {
        artwork.lemma_charts_ok(from_index);
        artwork.lemma_charts_ok(to_index);
    }
    let from_canvas = artwork.canvas_from_index(from_index)?;
    let from_codel = *from_canvas.get_codel(from_coord);
    let to_codel = *artwork.canvas_from_index(to_index)?.get_codel(to_coord);
    if !from_codel.is_any_colour() || !to_codel.is_any_colour() {
        return None;
    }
    let block_size = from_canvas.get_block(from_coord)?.size();
    let hue_diff = from_codel.hue_difference(to_codel);
    let lightness_diff = from_codel.light_difference(to_codel);
    match (hue_diff, lightness_diff) {
        (Some(0), Some(0)) => None,
        (Some(0), Some(1)) => Some(PietCommand::Push(block_size)),
        (Some(0), Some(2)) => Some(PietCommand::Pop),
        (Some(1), Some(0)) => Some(PietCommand::Add),
        (Some(1), Some(1)) => Some(PietCommand::Subtract),
        (Some(1), Some(2)) => Some(PietCommand::Multiply),
        (Some(2), Some(0)) => Some(PietCommand::Divide),
        (Some(2), Some(1)) => Some(PietCommand::Modulo),
        (Some(2), Some(2)) => Some(PietCommand::Not),
        (Some(3), Some(0)) => Some(PietCommand::Greater),
        (Some(3), Some(1)) => Some(PietCommand::Pointer),
        (Some(3), Some(2)) => Some(PietCommand::Switch),
        (Some(4), Some(0)) => Some(PietCommand::Duplicate),
        (Some(4), Some(1)) => Some(PietCommand::Roll),
        (Some(4), Some(2)) => Some(PietCommand::InputNum),
        (Some(5), Some(0)) => Some(PietCommand::InputChar),
        (Some(5), Some(1)) => Some(PietCommand::OutputNum),
        (Some(5), Some(2)) => Some(PietCommand::OutputChar),
        _ => None,
    }
}

/// Whether `t` is among `visited`.
fn visited_contains(visited: &Vec<(ChartIndex, Coordinate, DP)>, t: (ChartIndex, Coordinate, DP)) -> (r: bool)
    ensures
        r == visited@.contains(t),
{
    let mut i: usize = 0;
    while i < visited.len()
        invariant
            0 <= i <= visited@.len(),
            forall|j: int| 0 <= j < i ==> visited@[j] != t,
        decreases visited@.len() - i,
    {
        let (c, (x, y), d) = visited[i];
        if c == t.0 && x == t.1.0 && y == t.1.1 && d == t.2 {
            proof {
                assert(visited@[i as int] == t);
            }
            return true;
        }
        i = i + 1;
    }
    false
}

impl Interpreter {
    /// The codel from which the interpreter leaves `block`, for its pointers.
    fn get_exit_coords(&self, block: &CodelBlock) -> (c: Coordinate)
        ensures
            c == block.spec_coord(self@.dp, self@.cc),
    {
        match (self.dp(), self.cc()) {
            (DP::North, CC::Left) => block.northmost_west(),
            (DP::North, CC::Right) => block.northmost_east(),
            (DP::East, CC::Left) => block.eastmost_north(),
            (DP::East, CC::Right) => block.eastmost_south(),
            (DP::South, CC::Left) => block.southmost_east(),
            (DP::South, CC::Right) => block.southmost_west(),
            (DP::West, CC::Left) => block.westmost_south(),
            (DP::West, CC::Right) => block.westmost_north(),
        }
    }

    /// Steps from `current_coordinate` across white: blocked, onto white, or
    /// onto colour.
    fn try_step_from_white(&mut self, artwork: &impl Interpretable, current_coordinate: Coordinate) -> (r: StepState)
        requires
            artwork.spec_ok(),
            placed(artwork, old(self)@),
            current_coordinate == old(self)@.coordinate,
            artwork.spec_move_safe(old(self)@, current_coordinate),
        ensures
            match artwork.spec_move(old(self)@, current_coordinate) {
                None => r is HitBlack && final(self)@ == old(self)@,
                Some((ch, c, rev)) => final(self)@ == moved_to(old(self)@, ch, c, rev)
                    && placed(artwork, final(self)@)
                    && !(codel_under(artwork, final(self)@).spec_colour_name() == PietColour::Black)
                    && (r is StepWhite <==> codel_under(artwork, final(self)@).spec_colour_name() == PietColour::White)
                    && (r is StepWhite || r is StepColour),
            },
    {
        let ghost s0 = self@;
        if !artwork.move_coord(self, current_coordinate) {
            return StepState::HitBlack;
        }
        proof {
            artwork.lemma_move_valid(s0, current_coordinate);
        }
        if artwork.is_white(self, self.current_coordinate()) {
            return StepState::StepWhite;
        }
        StepState::StepColour
    }

    /// Slides across white codels in the direction of the pointer, turning
    /// (and flipping the codel chooser) where blocked, until it reaches a
    /// coloured codel, or returns to a white codel that it left before in the
    /// same direction, which ends the program.
    fn try_move_through_white(&mut self, artwork: &impl Interpretable) -> (r: MoveState)
        requires
            artwork.spec_ok(),
            placed(artwork, old(self)@),
            codel_under(artwork, old(self)@).spec_colour_name() == PietColour::White,
            slide_ok(artwork, old(self)@),
        ensures
            placed(artwork, final(self)@),
            final(self)@.stack == old(self)@.stack,
            r matches MoveState::Continue(c) && c is None || r is Terminate,
            r is Continue ==> codel_under(artwork, final(self)@) is Colour,
            r is Terminate ==> codel_under(artwork, final(self)@).spec_colour_name() == PietColour::White,
            slide_ends(artwork, old(self)@),
            final(self)@ == slide_end(artwork, old(self)@).s,
            r is Continue <==> slide_end(artwork, old(self)@).done == Some(true),
            r is Terminate <==> slide_end(artwork, old(self)@).done == Some(false),
    {
        let mut current_chart: ChartIndex = self.current_chart_index();
        let mut current_coord: Coordinate = self.current_coordinate();
        let mut visited: Vec<(ChartIndex, Coordinate, DP)> = Vec::new();
        let ghost n: nat = choose|n: nat| #[trigger] slide_ok_at(artwork, old(self)@, n);
        let ghost mut steps: nat = 0;
        loop
            invariant
                artwork.spec_ok(),
                placed(artwork, self@),
                codel_under(artwork, self@).spec_colour_name() == PietColour::White,
                current_chart == self@.chart,
                current_coord == self@.coordinate,
                self@.stack == old(self)@.stack,
                slide_ok_at(artwork, old(self)@, n),
                steps < n,
                slide_after(artwork, slide_start(old(self)@), steps) == (Slide { s: self@, visited: visited@, done: None }),
            decreases n - steps,
        {
            let here = (current_chart, current_coord, self.dp());
            if visited_contains(&visited, here) {
                proof {
                    lemma_slide_end(artwork, old(self)@, steps + 1);
                }
                return MoveState::Terminate;
            }
            proof {
                artwork.lemma_charts_ok(self@.chart);
                assert(slide_move_safe(artwork, slide_after(artwork, slide_start(old(self)@), steps)));
            }
            match self.try_step_from_white(artwork, current_coord) {
                StepState::StepColour => {
                    proof {
                        lemma_slide_end(artwork, old(self)@, steps + 1);
                    }
                    return MoveState::Continue(None);
                },
                StepState::StepWhite => {
                    visited.push((current_chart, current_coord, self.dp()));
                    current_chart = self.current_chart_index();
                    current_coord = self.current_coordinate();
                    proof {
                        steps = steps + 1;
                    }
                },
                StepState::HitBlack => {
                    self.modify_pointer(PointerAspect::Both);
                    proof {
                        steps = steps + 1;
                    }
                },
            }
        }
    }

    /// Whether the slide across white from where the interpreter stands ends,
    /// every move on the way being safe (see `slide_ok`); it does not end
    /// where the interpreter turns four times on one codel without moving.
    fn slide_is_ok(&self, artwork: &impl Interpretable) -> (r: bool)
        requires
            artwork.spec_ok(),
            placed(artwork, self@),
            codel_under(artwork, self@).spec_colour_name() == PietColour::White,
        ensures
            r == slide_ok(artwork, self@),
    {
        let mut sim = Interpreter::from_data(self.dp, self.cc, self.current_coordinate, self.current_chart_index, self.reversed);
        let ghost start = sim@;
        proof {
            assert(self@ == (InterpreterView { stack: self@.stack, ..start }));
            assert forall|m: nat| #[trigger] slide_ok_at(artwork, self@, m) == slide_ok_at(artwork, start, m) by {
                lemma_slide_ignores_stack(artwork, start, self@, m);
                assert(slide_after(artwork, slide_start(self@), m).done == slide_after(artwork, slide_start(start), m).done);
                assert forall|k: nat| k < m implies #[trigger] slide_move_safe(artwork, slide_after(artwork, slide_start(self@), k))
                    == slide_move_safe(artwork, slide_after(artwork, slide_start(start), k)) by {
                    lemma_slide_ignores_stack(artwork, start, self@, k);
                }
                if slide_ok_at(artwork, start, m) {
                    assert forall|k: nat| k < m implies #[trigger] slide_move_safe(artwork, slide_after(artwork, slide_start(self@), k)) by {
                        assert(slide_move_safe(artwork, slide_after(artwork, slide_start(start), k)));
                    }
                }
                if slide_ok_at(artwork, self@, m) {
                    assert forall|k: nat| k < m implies #[trigger] slide_move_safe(artwork, slide_after(artwork, slide_start(start), k)) by {
                        assert(slide_move_safe(artwork, slide_after(artwork, slide_start(self@), k)));
                    }
                }
            }
        }
        let r = Interpreter::simulate_slide(&mut sim, artwork);
        proof {
            if r {
                let m = choose|m: nat| #[trigger] slide_ok_at(artwork, start, m);
                assert(slide_ok_at(artwork, self@, m));
            } else {
                if slide_ok(artwork, self@) {
                    let m = choose|m: nat| #[trigger] slide_ok_at(artwork, self@, m);
                    assert(slide_ok_at(artwork, start, m));
                }
            }
        }
        r
    }

    /// Slides `sim` across white as `try_move_through_white` does, checking
    /// each move for safety first and stopping where it would turn forever;
    /// returns whether the slide ends with every move safe.
    fn simulate_slide(sim: &mut Interpreter, artwork: &impl Interpretable) -> (r: bool)
        requires
            artwork.spec_ok(),
            placed(artwork, old(sim)@),
            codel_under(artwork, old(sim)@).spec_colour_name() == PietColour::White,
        ensures
            r == slide_ok(artwork, old(sim)@),
    {
        let ghost start = sim@;
        let mut current_chart: ChartIndex = sim.current_chart_index();
        let mut current_coord: Coordinate = sim.current_coordinate();
        let mut visited: Vec<(ChartIndex, Coordinate, DP)> = Vec::new();
        let mut fails: u8 = 0;
        let ghost bound: int = if current_chart as int > artwork.spec_chart_bound() as int { current_chart as int } else { artwork.spec_chart_bound() as int };
        let ghost big_k: int = (bound + 1) * (usize::MAX as int + 1) * (usize::MAX as int + 1) * 4;
        let ghost mut keys: Set<int> = Set::empty();
        let ghost mut steps: nat = 0;
        let ghost mut turn_start: InterpreterView = sim@;
        proof {
            vstd::set_lib::lemma_int_range(0, big_k);
            assert(big_k >= 0) by (nonlinear_arith) requires bound >= 0, big_k == (bound + 1) * (usize::MAX as int + 1) * (usize::MAX as int + 1) * 4;
        }
        loop
            invariant
                artwork.spec_ok(),
                placed(artwork, sim@),
                codel_under(artwork, sim@).spec_colour_name() == PietColour::White,
                current_chart == sim@.chart,
                current_coord == sim@.coordinate,
                sim@.chart <= bound,
                bound >= 0,
                artwork.spec_chart_bound() <= bound,
                big_k == (bound + 1) * (usize::MAX as int + 1) * (usize::MAX as int + 1) * 4,
                vstd::set_lib::set_int_range(0, big_k).finite(),
                vstd::set_lib::set_int_range(0, big_k).len() == big_k,
                keys.finite(),
                keys.len() == visited@.len(),
                keys.subset_of(vstd::set_lib::set_int_range(0, big_k)),
                forall|i: int| 0 <= i < visited@.len() ==> (#[trigger] visited@[i]).0 <= bound,
                forall|i: int| 0 <= i < visited@.len() ==> keys.contains(walk_key(#[trigger] visited@[i])),
                forall|k: int| #[trigger] keys.contains(k) ==> exists|i: int| 0 <= i < visited@.len() && walk_key(visited@[i]) == k,
                start == old(sim)@,
                fails <= 3,
                fails <= steps,
                slide_after(artwork, slide_start(start), steps) == (Slide { s: sim@, visited: visited@, done: None }),
                slide_after(artwork, slide_start(start), (steps - fails) as nat) == (Slide { s: turn_start, visited: visited@, done: None }),
                sim@ == turned_both(turn_start, fails as nat),
                forall|k: nat| k < steps ==> #[trigger] slide_move_safe(artwork, slide_after(artwork, slide_start(start), k)),
            decreases big_k - visited@.len(), 4 - fails,
        {
            let here = (current_chart, current_coord, sim.dp());
            if visited_contains(&visited, here) {
                proof {
                    assert(slide_ok_at(artwork, start, steps + 1));
                }
                return true;
            }
            proof {
                artwork.lemma_charts_ok(sim@.chart);
            }
            if !artwork.move_is_safe(sim, current_coord) {
                proof {
                    if slide_ok(artwork, start) {
                        let m = choose|m: nat| #[trigger] slide_ok_at(artwork, start, m);
                        if m <= steps {
                            lemma_slide_settles(artwork, slide_start(start), m, steps);
                        }
                        assert(slide_move_safe(artwork, slide_after(artwork, slide_start(start), steps)));
                    }
                }
                return false;
            }
            let ghost s0 = sim@;
            match sim.try_step_from_white(artwork, current_coord) {
                StepState::StepColour => {
                    proof {
                        assert(slide_ok_at(artwork, start, steps + 1));
                    }
                    return true;
                },
                StepState::StepWhite => {
                    let ghost old_visited = visited@;
                    visited.push((current_chart, current_coord, sim.dp()));
                    current_chart = sim.current_chart_index();
                    current_coord = sim.current_coordinate();
                    fails = 0;
                    proof {
                        artwork.lemma_move_valid(s0, s0.coordinate);
                        lemma_walk_key(here, here, bound);
                        let k = walk_key(here);
                        if keys.contains(k) {
                            let i = choose|i: int| 0 <= i < old_visited.len() && walk_key(old_visited[i]) == k;
                            lemma_walk_key(old_visited[i], here, bound);
                            assert(old_visited.contains(here));
                            assert(false);
                        }
                        keys = keys.insert(k);
                        vstd::set_lib::lemma_len_subset(keys, vstd::set_lib::set_int_range(0, big_k));
                        assert forall|i: int| 0 <= i < visited@.len() implies keys.contains(walk_key(#[trigger] visited@[i])) by {
                            if i < old_visited.len() {
                                assert(visited@[i] == old_visited[i]);
                            }
                        }
                        assert forall|kk: int| #[trigger] keys.contains(kk) implies exists|i: int| 0 <= i < visited@.len() && walk_key(visited@[i]) == kk by {
                            if kk == k {
                                assert(walk_key(visited@[old_visited.len() as int]) == kk);
                            } else {
                                let i = choose|i: int| 0 <= i < old_visited.len() && walk_key(old_visited[i]) == kk;
                                assert(visited@[i] == old_visited[i]);
                            }
                        }
                        assert forall|i: int| 0 <= i < visited@.len() implies (#[trigger] visited@[i]).0 <= bound by {
                            if i < old_visited.len() {
                                assert(visited@[i] == old_visited[i]);
                            }
                        }
                        steps = steps + 1;
                        turn_start = sim@;
                        assert(visited@.len() <= big_k);
                    }
                },
                StepState::HitBlack => {
                    sim.modify_pointer(PointerAspect::Both);
                    proof {
                        steps = steps + 1;
                        assert(sim@ == turned_both(turn_start, (fails + 1) as nat));
                    }
                    if fails == 3 {
                        proof {
                            lemma_four_turns_both(turn_start);
                            let p = (steps - 4) as nat;
                            assert(slide_after(artwork, slide_start(start), steps) == slide_after(artwork, slide_start(start), p));
                            assert forall|m: nat| !(#[trigger] slide_ok_at(artwork, start, m)) by {
                                lemma_slide_cycle(artwork, slide_start(start), p, steps, m);
                            }
                        }
                        return false;
                    }
                    fails = fails + 1;
                },
            }
        }
    }

    /// Whether the interpreter can take its next step (see `step_ok`): from
    /// colour, whether the move out of the block is safe; from white, whether
    /// the slide ends with every move safe.
    pub fn can_step(&self, artwork: &impl Interpretable) -> (r: bool)
        requires
            artwork.spec_ok(),
            placed(artwork, self@),
        ensures
            r == step_ok(artwork, self@),
    {
        proof {
            artwork.lemma_charts_ok(self@.chart);
        }
        let codel = *artwork.current_canvas(self).get_codel(self.current_coordinate());
        match codel {
            Codel::Black => true,
            Codel::White => self.slide_is_ok(artwork),
            Codel::Colour(_) => {
                proof {
                    lemma_exit_in_bounds(artwork.spec_chart(self@.chart).unwrap(), self@.coordinate, self@.dp, self@.cc);
                }
                let block = artwork.current_canvas(self).get_block(self.current_coordinate()).unwrap();
                let exit = self.get_exit_coords(block);
                artwork.move_is_safe(self, exit)
            },
        }
    }

    /// One step of the interpreter from where it stands: from black, an error;
    /// from white, a slide across white (see `try_move_through_white`); from
    /// colour, a move out of the block through its exit codel, or, where that
    /// is blocked, the request to change `pointer_aspect`.
    pub fn get_next_state(&mut self, artwork: &impl Interpretable, pointer_aspect: PointerAspect) -> (r: CodeState)
        requires
            artwork.spec_ok(),
            placed(artwork, old(self)@),
            step_ok(artwork, old(self)@),
        ensures
            placed(artwork, final(self)@),
            !(codel_under(artwork, old(self)@) is Black) ==> !(codel_under(artwork, final(self)@) is Black),
            match codel_under(artwork, old(self)@) {
                Codel::Black => r is Error && final(self)@ == old(self)@,
                Codel::White => final(self)@.stack == old(self)@.stack
                    && slide_ends(artwork, old(self)@)
                    && final(self)@ == slide_end(artwork, old(self)@).s
                    && (r == CodeState::Continue(None) <==> slide_end(artwork, old(self)@).done == Some(true))
                    && (r is Terminate <==> slide_end(artwork, old(self)@).done == Some(false))
                    && (r == CodeState::Continue(None) && codel_under(artwork, final(self)@) is Colour
                        || r is Terminate && codel_under(artwork, final(self)@).spec_colour_name() == PietColour::White),
                Codel::Colour(_) => match artwork.spec_move(old(self)@, exit_of(artwork, old(self)@)) {
                    None => r == CodeState::ModifyPointer(pointer_aspect) && final(self)@ == old(self)@,
                    Some((ch, c, rev)) => r == CodeState::Continue(spec_command(artwork, old(self)@.chart,
                            exit_of(artwork, old(self)@), ch, c))
                        && final(self)@ == moved_to(old(self)@, ch, c, rev),
                },
            },
    {
        proof {
            artwork.lemma_charts_ok(self@.chart);
        }
        let codel = *artwork.current_canvas(self).get_codel(self.current_coordinate());
        match codel {
            Codel::Black => CodeState::Error,
            Codel::White => {
                let state = self.try_move_through_white(artwork);
                CodeState::from(state)
            },
            Codel::Colour(_) => {
                let ghost s0 = self@;
                match self.try_move_from_colour(artwork) {
                    MoveState::ChangePointerState => CodeState::ModifyPointer(pointer_aspect),
                    other => {
                        proof {
                            artwork.lemma_charts_ok(s0.chart);
                            lemma_exit_in_bounds(artwork.spec_chart(s0.chart).unwrap(), s0.coordinate, s0.dp, s0.cc);
                            artwork.lemma_move_valid(s0, exit_of(artwork, s0));
                        }
                        CodeState::from(other)
                    },
                }
            },
        }
    }

    /// Leaves the coloured block under the interpreter through its exit codel:
    /// either the pointers must change (nothing else does), or the interpreter
    /// moves and reports the command that the move encodes.
    fn try_move_from_colour(&mut self, artwork: &impl Interpretable) -> (r: MoveState)
        requires
            artwork.spec_ok(),
            placed(artwork, old(self)@),
            codel_under(artwork, old(self)@) is Colour,
            artwork.spec_move_safe(old(self)@, exit_of(artwork, old(self)@)),
        ensures
            match artwork.spec_move(old(self)@, exit_of(artwork, old(self)@)) {
                None => r is ChangePointerState && final(self)@ == old(self)@,
                Some((ch, c, rev)) => r == MoveState::Continue(spec_command(artwork, old(self)@.chart,
                        exit_of(artwork, old(self)@), ch, c))
                    && final(self)@ == moved_to(old(self)@, ch, c, rev),
            },
    {
        proof {
            artwork.lemma_charts_ok(self@.chart);
            lemma_exit_in_bounds(artwork.spec_chart(self@.chart).unwrap(), self@.coordinate, self@.dp, self@.cc);
        }
        let result = artwork.current_canvas(self).get_block(self.current_coordinate());
        match result {
            Some(block) => {
                let from_coord = self.get_exit_coords(block);
                let from_index = self.current_chart_index();
                let ghost s0 = self@;
                if !artwork.move_coord(self, from_coord) {
                    return MoveState::ChangePointerState;
                }
                let to_coord = self.current_coordinate();
                let to_index = self.current_chart_index();
                proof {
                    artwork.lemma_move_valid(s0, from_coord);
                }
                MoveState::Continue(get_command(artwork, from_index, from_coord, to_index, to_coord))
            },
            None => MoveState::Error,
        }
    }
}

} // verus!
