//! The lexer: for every block of every chart, and every setting of the
//! pointers, what leaving the block does. Blocked exits are then resolved by
//! the rule that the interpreter follows: flip the codel chooser, then turn
//! the direction pointer, up to four times each.

use vstd::prelude::*;

use crate::canvas::{BlockIndex, Canvas, CodelBlock, is_extreme};
use crate::interpreter::{
    CC, ChartIndex, CodeState, DP, Interpretable, Interpreter, InterpreterView, PietCommand,
    PointerAspect, clockwise, flipped, moved_to,
};
use crate::interpreter::{codel_under, exit_of, placed, spec_command, step_ok};
use crate::interpreter::{Slide, dp_number, lemma_exit_in_bounds, lemma_slide_ignores_stack, slide_after, slide_end, slide_ends, slide_start};

verus! {

/// Where leaving a block takes the interpreter: the chart and block it enters,
/// the command that the move encodes, and its pointers afterwards.
#[derive(Debug, Clone, Copy, PartialEq, Eq, Structural)]
pub struct BlockTransition {
    pub new_chart_index: ChartIndex,
    pub new_block_index: BlockIndex,
    pub command: Option<PietCommand>,
    pub codel_chooser: CC,
    pub direction_pointer: DP,
}

/// What leaving a block with given pointers does.
#[derive(Debug, Clone, Copy, PartialEq, Eq, Structural)]
pub enum Operation {
    /// The interpreter moves to another block.
    Continue(BlockTransition),
    /// The exit is blocked: the pointers must change.
    ModifyPointer,
    /// The program ends.
    Terminate,
}

/// The direction pointer of table slot `k` (slots run north, east, south,
/// west, each with the codel chooser left, then right).
pub open spec fn slot_dp(k: int) -> DP {
    if k / 2 == 0 { DP::North } else if k / 2 == 1 { DP::East } else if k / 2 == 2 { DP::South } else { DP::West }
}

/// The codel chooser of table slot `k`.
pub open spec fn slot_cc(k: int) -> CC {
    if k % 2 == 0 { CC::Left } else { CC::Right }
}

/// The table slot of a pair of pointers.
pub open spec fn slot(dp: DP, cc: CC) -> int {
    2 * dp_number(dp) + if cc == CC::Left { 0int } else { 1int }
}

/// The block transition of an interpreter in state `s` that has just entered a
/// coloured codel, having encoded `command`.
pub open spec fn arrival<A: Interpretable>(a: &A, s: InterpreterView, command: Option<PietCommand>) -> BlockTransition {
    BlockTransition {
        new_chart_index: s.chart,
        new_block_index: codel_under(a, s).spec_block_index().unwrap(),
        command,
        codel_chooser: s.cc,
        direction_pointer: s.dp,
    }
}

/// What leaving the coloured block under an interpreter in state `s` does:
/// blocked, a move onto colour, or a move onto white and a slide across it,
/// which either reaches colour (the move then encodes no command) or ends the
/// program.
pub open spec fn operation_from<A: Interpretable>(a: &A, s: InterpreterView) -> Operation {
    match a.spec_move(s, exit_of(a, s)) {
        None => Operation::ModifyPointer,
        Some((ch, c, rev)) => {
            let s1 = moved_to(s, ch, c, rev);
            if codel_under(a, s1) is Colour {
                Operation::Continue(arrival(a, s1, spec_command(a, s.chart, exit_of(a, s), ch, c)))
            } else if slide_end(a, s1).done == Some(true) {
                Operation::Continue(arrival(a, slide_end(a, s1).s, None))
            } else {
                Operation::Terminate
            }
        },
    }
}

/// An interpreter with an empty stack, the pointers `dp` and `cc`, standing on
/// the exit codel of block `b` of chart `chart` for those pointers.
pub open spec fn exit_view(cv: Canvas, chart: ChartIndex, b: int, dp: DP, cc: CC) -> InterpreterView {
    InterpreterView {
        stack: Seq::empty(),
        dp,
        cc,
        coordinate: cv.spec_blocks()[b].spec_coord(dp, cc),
        chart,
        reversed: false,
    }
}

/// Leaving the coloured block under an interpreter in state `s` can be done:
/// the move out of the block is safe and, where it leads onto white, the
/// slide from there ends with every move safe.
pub open spec fn operation_ok<A: Interpretable>(a: &A, s: InterpreterView) -> bool {
    &&& step_ok(a, s)
    &&& (a.spec_move(s, exit_of(a, s)) matches Some((ch, c, rev)) ==>
            (codel_under(a, moved_to(s, ch, c, rev)) is White ==> step_ok(a, moved_to(s, ch, c, rev))))
}

/// Every block of every chart that the lexer visits can be left with every
/// pair of pointers.
pub open spec fn lex_ok<A: Interpretable>(a: &A) -> bool {
    forall|i: ChartIndex, b: int, k: int|
        #![trigger operation_ok(a, exit_view(a.spec_chart(i).unwrap(), i, b, slot_dp(k), slot_cc(k)))]
        i < a.spec_max_chart_index() && a.spec_chart(i) is Some && 0 <= b < a.spec_chart(i).unwrap().spec_blocks().len()
            && 0 <= k < 8
            ==> operation_ok(a, exit_view(a.spec_chart(i).unwrap(), i, b, slot_dp(k), slot_cc(k)))
}

/// The table of block `b` of chart `chart` (whose canvas is `cv`) before
/// blocked exits are resolved: one operation per slot.
pub open spec fn first_pass<A: Interpretable>(a: &A, chart: ChartIndex, cv: Canvas, b: int) -> Seq<Operation> {
    Seq::new(8, |k: int| operation_from(a, exit_view(cv, chart, b, slot_dp(k), slot_cc(k))))
}

/// What a blocked exit with pointers `dp` and `cc` comes to in table `t`:
/// the first operation that is not blocked, trying `rounds` times to flip the
/// codel chooser and then to turn the direction pointer clockwise; the end of
/// the program if all are blocked.
pub open spec fn resolved(t: Seq<Operation>, dp: DP, cc: CC, rounds: nat) -> Operation
    decreases rounds,
{
    if rounds == 0 {
        Operation::Terminate
    } else if !(t[slot(dp, cc)] is ModifyPointer) {
        t[slot(dp, cc)]
    } else if !(t[slot(dp, flipped(cc))] is ModifyPointer) {
        t[slot(dp, flipped(cc))]
    } else {
        resolved(t, clockwise(dp), flipped(cc), (rounds - 1) as nat)
    }
}

/// Table `t` after the first `k` slots, in order, have been resolved, each
/// against the table as it stands by then.
pub open spec fn resolved_upto(t: Seq<Operation>, k: nat) -> Seq<Operation>
    decreases k,
{
    if k == 0 {
        t
    } else {
        let before = resolved_upto(t, (k - 1) as nat);
        before.update(k - 1, resolved(before, slot_dp(k - 1), slot_cc(k - 1), 4))
    }
}

/// Table `t` with every blocked exit resolved.
pub open spec fn without_dead_ends(t: Seq<Operation>) -> Seq<Operation> {
    resolved_upto(t, 8)
}

/// A lexed chart: its index and, for each of its blocks in order, the
/// block's index and table.
pub type LexedView = (ChartIndex, Seq<(BlockIndex, Seq<Operation>)>);

/// The first pass over chart `chart`, whose canvas is `cv`: each block's
/// index and its table before blocked exits are resolved.
pub open spec fn first_pass_blocks<A: Interpretable>(a: &A, chart: ChartIndex, cv: Canvas) -> Seq<(BlockIndex, Seq<Operation>)> {
    Seq::new(cv.spec_blocks().len(), |b: int| (cv.spec_blocks()[b].spec_index(), first_pass(a, chart, cv, b)))
}

/// The first pass over the first `n` chart indices: the charts that exist,
/// in order, each with its index and blocks.
pub open spec fn first_pass_charts<A: Interpretable>(a: &A, n: nat) -> Seq<LexedView>
    decreases n,
{
    if n == 0 {
        Seq::empty()
    } else {
        let i = (n - 1) as usize;
        match a.spec_chart(i) {
            Some(cv) => first_pass_charts(a, (n - 1) as nat).push((i, first_pass_blocks(a, i, cv))),
            None => first_pass_charts(a, (n - 1) as nat),
        }
    }
}

/// Blocks with their blocked exits resolved.
pub open spec fn resolve_blocks(bs: Seq<(BlockIndex, Seq<Operation>)>) -> Seq<(BlockIndex, Seq<Operation>)> {
    bs.map_values(|p: (BlockIndex, Seq<Operation>)| (p.0, without_dead_ends(p.1)))
}

/// Charts with the blocked exits of all their blocks resolved.
pub open spec fn resolve_charts(cs: Seq<LexedView>) -> Seq<LexedView> {
    cs.map_values(|c: LexedView| (c.0, resolve_blocks(c.1)))
}

/// Every table of the blocks has a slot for each pair of pointers.
pub open spec fn tables_full(bs: Seq<(BlockIndex, Seq<Operation>)>) -> bool {
    forall|j: int| 0 <= j < bs.len() ==> (#[trigger] bs[j]).1.len() == 8
}

/// What the lexer makes of an artwork: the first pass over all its charts,
/// with blocked exits resolved.
pub open spec fn lexed<A: Interpretable>(a: &A) -> Seq<LexedView> {
    resolve_charts(first_pass_charts(a, a.spec_max_chart_index() as nat))
}

/// The slot of each pair of pointers is the one whose pointers they are.
proof fn lemma_slot(dp: DP, cc: CC)
    ensures
        0 <= slot(dp, cc) < 8,
        slot_dp(slot(dp, cc)) == dp,
        slot_cc(slot(dp, cc)) == cc,
{
}

/// Resolving never leaves a blocked exit.
proof fn lemma_resolved_unblocked(t: Seq<Operation>, dp: DP, cc: CC, rounds: nat)
    requires
        t.len() == 8,
    ensures
        !(resolved(t, dp, cc, rounds) is ModifyPointer),
    decreases rounds,
{
    lemma_slot(dp, cc);
    lemma_slot(dp, flipped(cc));
    if rounds > 0 {
        lemma_resolved_unblocked(t, clockwise(dp), flipped(cc), (rounds - 1) as nat);
    }
}

/// After `k` slots are resolved, the table keeps its length and none of those
/// slots is blocked.
proof fn lemma_resolved_upto(t: Seq<Operation>, k: nat)
    requires
        t.len() == 8,
        k <= 8,
    ensures
        resolved_upto(t, k).len() == 8,
        forall|j: int| 0 <= j < k ==> !(#[trigger] resolved_upto(t, k)[j] is ModifyPointer),
    decreases k,
{
    if k > 0 {
        lemma_resolved_upto(t, (k - 1) as nat);
        let before = resolved_upto(t, (k - 1) as nat);
        lemma_resolved_unblocked(before, slot_dp(k - 1), slot_cc(k - 1), 4);
        assert forall|j: int| 0 <= j < k implies !(#[trigger] resolved_upto(t, k)[j] is ModifyPointer) by {
            if j < k - 1 {
                assert(resolved_upto(t, k)[j] == before[j]);
            }
        }
    }
}

/// Once dead ends are eliminated no exit of a block is blocked: every slot
/// either moves to another block or ends the program.
pub proof fn lemma_no_dead_ends(t: Seq<Operation>)
    requires
        t.len() == 8,
    ensures
        without_dead_ends(t).len() == 8,
        forall|k: int| 0 <= k < 8 ==> !(#[trigger] without_dead_ends(t)[k] is ModifyPointer),
{
    lemma_resolved_upto(t, 8);
}

/// Resolving slots in order leaves the later slots as they were.
proof fn lemma_resolved_upto_later(t: Seq<Operation>, k: nat, j: int)
    requires
        t.len() == 8,
        k <= j < 8,
    ensures
        resolved_upto(t, k)[j] == t[j],
    decreases k,
{
    if k > 0 {
        lemma_resolved_upto(t, (k - 1) as nat);
        lemma_resolved_upto_later(t, (k - 1) as nat, j);
    }
}

/// Eliminating dead ends keeps every exit that is not blocked.
pub proof fn lemma_unblocked_kept(t: Seq<Operation>, k: int)
    requires
        t.len() == 8,
        0 <= k < 8,
        !(t[k] is ModifyPointer),
    ensures
        without_dead_ends(t)[k] == t[k],
{
    lemma_resolved_upto(t, k as nat);
    lemma_resolved_upto_later(t, k as nat, k);
    let before = resolved_upto(t, k as nat);
    lemma_slot(slot_dp(k), slot_cc(k));
    assert(slot(slot_dp(k), slot_cc(k)) == k) by {
        assert(0 <= k < 8);
        if k == 0 {} else if k == 1 {} else if k == 2 {} else if k == 3 {}
        else if k == 4 {} else if k == 5 {} else if k == 6 {} else {}
    }
    assert(resolved_upto(t, (k + 1) as nat) == before.update(k, resolved(before, slot_dp(k), slot_cc(k), 4)));
    assert(resolved_upto(t, (k + 1) as nat)[k] == t[k]);
    lemma_resolved_upto(t, (k + 1) as nat);
    lemma_resolved_keeps(t, (k + 1) as nat, k);
}

/// Resolving later slots keeps the slots resolved before.
proof fn lemma_resolved_keeps(t: Seq<Operation>, m: nat, k: int)
    requires
        t.len() == 8,
        0 <= k < m <= 8,
    ensures
        resolved_upto(t, 8)[k] == resolved_upto(t, m)[k],
    decreases 8 - m,
{
    if m < 8 {
        lemma_resolved_upto(t, m);
        lemma_resolved_keeps(t, m + 1, k);
    }
}

/// Each table slot is the slot of its own pointers.
proof fn lemma_slot_of_slot(k: int)
    requires
        0 <= k < 8,
    ensures
        slot(slot_dp(k), slot_cc(k)) == k,
{
    if k == 0 {} else if k == 1 {} else if k == 2 {} else if k == 3 {}
    else if k == 4 {} else if k == 5 {} else if k == 6 {} else {}
}

/// Resolving slots keeps every slot that was not blocked.
proof fn lemma_resolved_upto_unblocked(t: Seq<Operation>, k: nat, j: int)
    requires
        t.len() == 8,
        k <= 8,
        0 <= j < 8,
        !(t[j] is ModifyPointer),
    ensures
        resolved_upto(t, k)[j] == t[j],
    decreases k,
{
    if k > 0 {
        lemma_resolved_upto(t, (k - 1) as nat);
        lemma_resolved_upto_unblocked(t, (k - 1) as nat, j);
        let before = resolved_upto(t, (k - 1) as nat);
        if j == k - 1 {
            lemma_slot_of_slot(j);
        }
    }
}

/// What dead-end elimination puts in slot `k`: the resolution of that slot
/// against the table with the slots before it already resolved.
proof fn lemma_slot_resolution(t: Seq<Operation>, k: int)
    requires
        t.len() == 8,
        0 <= k < 8,
    ensures
        without_dead_ends(t)[k] == resolved(resolved_upto(t, k as nat), slot_dp(k), slot_cc(k), 4),
{
    lemma_resolved_upto(t, k as nat);
    lemma_resolved_upto(t, (k + 1) as nat);
    lemma_resolved_keeps(t, (k + 1) as nat, k);
}

/// A blocked exit whose codel chooser, flipped, gives an exit that is not
/// blocked, at the same direction pointer, resolves to that exit: the codel
/// chooser is flipped before the direction pointer is turned.
pub proof fn lemma_flip_before_turn(t: Seq<Operation>, dp: DP, cc: CC)
    requires
        t.len() == 8,
        t[slot(dp, cc)] is ModifyPointer,
        !(t[slot(dp, flipped(cc))] is ModifyPointer),
    ensures
        without_dead_ends(t)[slot(dp, cc)] == t[slot(dp, flipped(cc))],
{
    let k = slot(dp, cc);
    lemma_slot(dp, cc);
    lemma_slot(dp, flipped(cc));
    lemma_slot_resolution(t, k);
    lemma_resolved_upto(t, k as nat);
    lemma_resolved_upto_later(t, k as nat, k);
    lemma_resolved_upto_unblocked(t, k as nat, slot(dp, flipped(cc)));
}

/// A blocked exit with the right codel chooser resolves as the exit with the
/// left one at the same direction pointer does: that is the first one tried,
/// and it has been resolved already.
pub proof fn lemma_right_follows_left(t: Seq<Operation>, dp: DP)
    requires
        t.len() == 8,
        t[slot(dp, CC::Right)] is ModifyPointer,
    ensures
        without_dead_ends(t)[slot(dp, CC::Right)] == without_dead_ends(t)[slot(dp, CC::Left)],
{
    let k = slot(dp, CC::Right);
    let j = slot(dp, CC::Left);
    lemma_slot(dp, CC::Right);
    lemma_slot(dp, CC::Left);
    lemma_slot_resolution(t, k);
    lemma_resolved_upto(t, k as nat);
    lemma_resolved_upto_later(t, k as nat, k);
    lemma_resolved_keeps(t, k as nat, j);
    lemma_no_dead_ends(t);
}

/// A blocked exit with the left codel chooser, the right one at the same
/// direction pointer blocked too, resolves, for a pointer other than west, to
/// the exit one quarter turn clockwise with the right codel chooser where
/// that is not blocked: the direction pointer turns after the flip.
pub proof fn lemma_turn_after_flip(t: Seq<Operation>, dp: DP)
    requires
        t.len() == 8,
        dp != DP::West,
        t[slot(dp, CC::Left)] is ModifyPointer,
        t[slot(dp, CC::Right)] is ModifyPointer,
        !(t[slot(clockwise(dp), CC::Right)] is ModifyPointer),
    ensures
        without_dead_ends(t)[slot(dp, CC::Left)] == t[slot(clockwise(dp), CC::Right)],
{
    let k = slot(dp, CC::Left);
    lemma_slot(dp, CC::Left);
    lemma_slot(dp, CC::Right);
    lemma_slot(clockwise(dp), CC::Right);
    lemma_slot(clockwise(dp), CC::Left);
    lemma_slot_resolution(t, k);
    lemma_resolved_upto(t, k as nat);
    let before = resolved_upto(t, k as nat);
    lemma_resolved_upto_later(t, k as nat, k);
    lemma_resolved_upto_later(t, k as nat, k + 1);
    lemma_resolved_upto_later(t, k as nat, slot(clockwise(dp), CC::Right));
    assert(resolved(before, clockwise(dp), CC::Right, 3) == before[slot(clockwise(dp), CC::Right)]);
}

/// Where every exit of a block is blocked, dead-end elimination makes every
/// exit end the program.
pub proof fn lemma_all_blocked_terminate(t: Seq<Operation>, k: int)
    requires
        t.len() == 8,
        forall|j: int| 0 <= j < 8 ==> #[trigger] t[j] is ModifyPointer,
        0 <= k < 8,
    ensures
        without_dead_ends(t)[k] == Operation::Terminate,
    decreases k,
{
    lemma_slot_resolution(t, k);
    lemma_resolved_upto(t, k as nat);
    let before = resolved_upto(t, k as nat);
    assert forall|j: int| 0 <= j < 8 implies (#[trigger] before[j] is ModifyPointer || before[j] == Operation::Terminate) by {
        if j < k {
            lemma_all_blocked_terminate(t, j);
            lemma_resolved_keeps(t, k as nat, j);
        } else {
            lemma_resolved_upto_later(t, k as nat, j);
        }
    }
    lemma_resolves_to_terminate(before, slot_dp(k), slot_cc(k), 4);
}

/// In a table whose every slot is blocked or ends the program, every
/// resolution ends the program.
proof fn lemma_resolves_to_terminate(t: Seq<Operation>, dp: DP, cc: CC, rounds: nat)
    requires
        t.len() == 8,
        forall|j: int| 0 <= j < 8 ==> (#[trigger] t[j] is ModifyPointer || t[j] == Operation::Terminate),
    ensures
        resolved(t, dp, cc, rounds) == Operation::Terminate,
    decreases rounds,
{
    lemma_slot(dp, cc);
    lemma_slot(dp, flipped(cc));
    if rounds > 0 {
        lemma_resolves_to_terminate(t, clockwise(dp), flipped(cc), (rounds - 1) as nat);
    }
}

/// A resolution over four rounds tries all eight slots: where some slot is
/// not blocked and none ends the program, it does not end the program.
proof fn lemma_resolved_finds(t: Seq<Operation>, dp: DP, cc: CC)
    requires
        t.len() == 8,
        forall|j: int| 0 <= j < 8 ==> !(#[trigger] t[j] is Terminate),
        exists|j: int| 0 <= j < 8 && !(#[trigger] t[j] is ModifyPointer),
    ensures
        !(resolved(t, dp, cc, 4) is Terminate),
{
    reveal_with_fuel(resolved, 5);
    if resolved(t, dp, cc, 4) is Terminate {
        let j0 = choose|j: int| 0 <= j < 8 && !(#[trigger] t[j] is ModifyPointer);
        assert forall|j: int| 0 <= j < 8 implies #[trigger] t[j] is ModifyPointer by {
            match dp {
                DP::North => match cc { CC::Left => {}, CC::Right => {} },
                DP::East => match cc { CC::Left => {}, CC::Right => {} },
                DP::South => match cc { CC::Left => {}, CC::Right => {} },
                DP::West => match cc { CC::Left => {}, CC::Right => {} },
            }
        }
        assert(t[j0] is ModifyPointer);
    }
}

/// Where some exit of a block is not blocked and none ends the program,
/// dead-end elimination makes no exit end the program: every blocked exit
/// finds an open one.
pub proof fn lemma_open_exit_found(t: Seq<Operation>, k: int)
    requires
        t.len() == 8,
        forall|j: int| 0 <= j < 8 ==> !(#[trigger] t[j] is Terminate),
        exists|j: int| 0 <= j < 8 && !(#[trigger] t[j] is ModifyPointer),
        0 <= k < 8,
    ensures
        !(without_dead_ends(t)[k] is Terminate),
    decreases k,
{
    lemma_slot_resolution(t, k);
    lemma_resolved_upto(t, k as nat);
    let before = resolved_upto(t, k as nat);
    assert forall|j: int| 0 <= j < 8 implies !(#[trigger] before[j] is Terminate) by {
        if j < k {
            lemma_open_exit_found(t, j);
            lemma_resolved_keeps(t, k as nat, j);
        } else {
            lemma_resolved_upto_later(t, k as nat, j);
        }
    }
    let j0 = choose|j: int| 0 <= j < 8 && !(#[trigger] t[j] is ModifyPointer);
    lemma_resolved_upto_unblocked(t, k as nat, j0);
    assert(!(before[j0] is ModifyPointer));
    lemma_resolved_finds(before, slot_dp(k), slot_cc(k));
}

/// Eliminating dead ends a second time changes nothing.
pub proof fn lemma_dead_ends_idempotent(t: Seq<Operation>)
    requires
        t.len() == 8,
    ensures
        without_dead_ends(without_dead_ends(t)) == without_dead_ends(t),
{
    lemma_no_dead_ends(t);
    let u = without_dead_ends(t);
    lemma_no_dead_ends(u);
    assert forall|k: int| 0 <= k < 8 implies #[trigger] without_dead_ends(u)[k] == u[k] by {
        lemma_unblocked_kept(u, k);
    }
    assert(without_dead_ends(u) =~= u);
}

/// On a well-formed canvas every exit codel of a block lies on the canvas and
/// belongs to that block.
pub proof fn lemma_block_exit(cv: Canvas, b: int, dp: DP, cc: CC)
    requires
        cv.wf(),
        0 <= b < cv.spec_blocks().len(),
    ensures
        cv.in_bounds(cv.spec_blocks()[b].spec_coord(dp, cc)),
        cv.spec_codel(cv.spec_blocks()[b].spec_coord(dp, cc)).spec_block_index() == Some(b as usize),
        cv.spec_codel(cv.spec_blocks()[b].spec_coord(dp, cc)) is Colour,
{
    assert(cv.block_ok(b));
    let blk = cv.spec_blocks()[b];
    assert(is_extreme(cv.cells(b as usize), dp, cc, blk.spec_coord(dp, cc)));
}

/// On a canvas, what the lexer records for block `b` and the pointers `dp`
/// and `cc` (before blocked exits are resolved) is what the interpreter does
/// from any codel of that block with those pointers, whatever its stack.
pub proof fn lemma_lexer_matches_interpreter(cv: &Canvas, s: InterpreterView)
    requires
        cv.wf(),
        placed(cv, s),
        codel_under(cv, s) is Colour,
        !s.reversed,
    ensures
        codel_under(cv, s).spec_block_index() matches Some(b) && 0 <= slot(s.dp, s.cc) < 8
            && operation_from(cv, s) == first_pass(cv, s.chart, *cv, b as int)[slot(s.dp, s.cc)],
{
    lemma_exit_in_bounds(*cv, s.coordinate, s.dp, s.cc);
    let b = codel_under(cv, s).spec_block_index().unwrap();
    lemma_slot(s.dp, s.cc);
    let e = exit_view(*cv, s.chart, b as int, s.dp, s.cc);
    lemma_block_exit(*cv, b as int, s.dp, s.cc);
    assert(exit_of(cv, e) == exit_of(cv, s));
    let x = exit_of(cv, s);
    match cv.spec_move(s, x) {
        None => {},
        Some((ch, c, rev)) => {
            let s1 = moved_to(s, ch, c, rev);
            let e1 = moved_to(e, ch, c, rev);
            assert(cv.spec_move(e, x) == cv.spec_move(s, x));
            let t1 = InterpreterView { stack: e1.stack, ..s1 };
            assert(t1 == e1);
            assert forall|n: nat| #[trigger] slide_after(cv, slide_start(e1), n) == (Slide {
                s: InterpreterView { stack: e1.stack, ..slide_after(cv, slide_start(s1), n).s },
                ..slide_after(cv, slide_start(s1), n)
            }) by {
                lemma_slide_ignores_stack(cv, s1, e1, n);
            }
            if slide_ends(cv, s1) {
                let n = choose|n: nat| (#[trigger] slide_after(cv, slide_start(s1), n)).done is Some;
                crate::interpreter::lemma_slide_end(cv, s1, n);
                crate::interpreter::lemma_slide_end(cv, e1, n);
            } else {
                assert(!slide_ends(cv, e1)) by {
                    if slide_ends(cv, e1) {
                        let n = choose|n: nat| (#[trigger] slide_after(cv, slide_start(e1), n)).done is Some;
                        assert(slide_after(cv, slide_start(s1), n).done is Some);
                    }
                }
                let m1 = choose|n: nat| (#[trigger] slide_after(cv, slide_start(s1), n)).done is Some;
                let m2 = choose|n: nat| (#[trigger] slide_after(cv, slide_start(e1), n)).done is Some;
                assert(slide_end(cv, s1) == slide_after(cv, slide_start(s1), m1));
                assert(slide_end(cv, e1) == slide_after(cv, slide_start(e1), m2));
                assert(slide_end(cv, s1).done is None);
                assert(slide_end(cv, e1).done is None);
            }
            assert(operation_from(cv, s) == operation_from(cv, e));
        },
    }
}

/// The blocked exits of a table, resolved one slot at a time.
fn resolve_slot(t: &Vec<Operation>, dp: DP, cc: CC) -> (op: Operation)
    requires
        t@.len() == 8,
    ensures
        op == resolved(t@, dp, cc, 4),
{
    let mut shadow_dp = dp;
    let mut shadow_cc = cc;
    let mut round: usize = 0;
    while round < 4
        invariant
            t@.len() == 8,
            round <= 4,
            resolved(t@, dp, cc, 4) == resolved(t@, shadow_dp, shadow_cc, (4 - round) as nat),
        decreases 4 - round,
    {
        proof {
            lemma_slot(shadow_dp, shadow_cc);
        }
        match t[slot_of(shadow_dp, shadow_cc)] {
            Operation::ModifyPointer => {
                shadow_cc = flip(shadow_cc);
            },
            op => {
                return op;
            },
        }
        proof {
            lemma_slot(shadow_dp, shadow_cc);
        }
        match t[slot_of(shadow_dp, shadow_cc)] {
            Operation::ModifyPointer => {
                shadow_dp = turn(shadow_dp);
            },
            op => {
                return op;
            },
        }
        round = round + 1;
    }
    Operation::Terminate
}

/// The table slot of a pair of pointers.
fn slot_of(dp: DP, cc: CC) -> (k: usize)
    ensures
        k == slot(dp, cc),
{
    let d: usize = match dp {
        DP::North => 0,
        DP::East => 1,
        DP::South => 2,
        DP::West => 3,
    };
    match cc {
        CC::Left => 2 * d,
        CC::Right => 2 * d + 1,
    }
}

/// The pointers of table slot `k`.
fn slot_pointers(k: usize) -> (p: (DP, CC))
    requires
        k < 8,
    ensures
        p == (slot_dp(k as int), slot_cc(k as int)),
{
    let dp = if k / 2 == 0 {
        DP::North
    } else if k / 2 == 1 {
        DP::East
    } else if k / 2 == 2 {
        DP::South
    } else {
        DP::West
    };
    let cc = if k % 2 == 0 { CC::Left } else { CC::Right };
    (dp, cc)
}

/// The other codel chooser.
fn flip(cc: CC) -> (r: CC)
    ensures
        r == flipped(cc),
{
    match cc {
        CC::Left => CC::Right,
        CC::Right => CC::Left,
    }
}

/// The direction a quarter turn clockwise.
fn turn(dp: DP) -> (r: DP)
    ensures
        r == clockwise(dp),
{
    match dp {
        DP::North => DP::East,
        DP::East => DP::South,
        DP::South => DP::West,
        DP::West => DP::North,
    }
}

/// One block, lexed: its index and, for each slot, what leaving it does.
pub struct LexedBlock {
    index: BlockIndex,
    transitions: Vec<Operation>,
}

impl LexedBlock {
    pub closed spec fn view_pair(self) -> (BlockIndex, Seq<Operation>) {
        (self.index, self.transitions@)
    }

    /// Lexes `block`, block `b` of chart `chart_index`.
    fn new(artwork: &impl Interpretable, chart_index: ChartIndex, block: &CodelBlock, Ghost(b): Ghost<int>) -> (r: LexedBlock)
        requires
            artwork.spec_ok(),
            forall|k: int| 0 <= k < 8 ==> #[trigger] operation_ok(artwork, exit_view(artwork.spec_chart(chart_index).unwrap(), chart_index, b, slot_dp(k), slot_cc(k))),
            artwork.spec_chart(chart_index) matches Some(cv) && 0 <= b < cv.spec_blocks().len()
                && *block == cv.spec_blocks()[b],
        ensures
            r.view_pair() == (block.spec_index(), first_pass(artwork, chart_index, artwork.spec_chart(chart_index).unwrap(), b)),
    {
        let ghost cv = artwork.spec_chart(chart_index).unwrap();
        proof {
            artwork.lemma_charts_ok(chart_index);
        }
        let mut transitions: Vec<Operation> = Vec::new();
        let mut k: usize = 0;
        while k < 8
            invariant
                artwork.spec_ok(),
                forall|k: int| 0 <= k < 8 ==> #[trigger] operation_ok(artwork, exit_view(cv, chart_index, b, slot_dp(k), slot_cc(k))),
                cv.wf(),
                artwork.spec_chart(chart_index) == Some(cv),
                0 <= b < cv.spec_blocks().len(),
                *block == cv.spec_blocks()[b],
                k <= 8,
                transitions@.len() == k,
                forall|j: int| 0 <= j < k ==> transitions@[j] == #[trigger] first_pass(artwork, chart_index, cv, b)[j],
            decreases 8 - k,
        {
            let (dp, cc) = slot_pointers(k);
            let exit_coord = block.get_coord(dp, cc);
            let mut interpreter = Interpreter::from_data(dp, cc, exit_coord, chart_index, false);
            proof {
                lemma_block_exit(cv, b, dp, cc);
                assert(operation_ok(artwork, exit_view(cv, chart_index, b, slot_dp(k as int), slot_cc(k as int))));
            }
            let op = LexedBlock::get_block_transition(artwork, &mut interpreter);
            transitions.push(op);
            k = k + 1;
        }
        proof {
            assert(transitions@ =~= first_pass(artwork, chart_index, cv, b));
        }
        LexedBlock { index: block.index(), transitions }
    }

    /// What leaving the coloured block under the interpreter does (see
    /// `operation_from`); the interpreter is left where the move ends.
    fn get_block_transition(artwork: &impl Interpretable, interpreter: &mut Interpreter) -> (r: Operation)
        requires
            artwork.spec_ok(),
            operation_ok(artwork, old(interpreter)@),
            placed(artwork, old(interpreter)@),
            codel_under(artwork, old(interpreter)@) is Colour,
        ensures
            r == operation_from(artwork, old(interpreter)@),
    {
        let aspect = PointerAspect::CC;
        let ghost s0 = interpreter@;
        let ghost mut first = true;
        loop
            invariant
                artwork.spec_ok(),
                operation_ok(artwork, s0),
                placed(artwork, interpreter@),
                s0 == old(interpreter)@,
                placed(artwork, s0),
                codel_under(artwork, s0) is Colour,
                first ==> interpreter@ == s0,
                !first ==> (artwork.spec_move(s0, exit_of(artwork, s0)) matches Some((ch, c, rev))
                    && interpreter@ == moved_to(s0, ch, c, rev)
                    && codel_under(artwork, interpreter@) is White),
            decreases (if first { 1int } else { 0int }),
        {
            proof {
                artwork.lemma_charts_ok(s0.chart);
            }
            match interpreter.get_next_state(artwork, aspect) {
                CodeState::Continue(command) => {
                    proof {
                        artwork.lemma_charts_ok(interpreter@.chart);
                    }
                    let current_canvas = artwork.current_canvas(interpreter);
                    match current_canvas.get_block(interpreter.current_coordinate()) {
                        Some(block) => {
                            let transition = BlockTransition {
                                new_chart_index: interpreter.current_chart_index(),
                                new_block_index: block.index(),
                                command,
                                codel_chooser: interpreter.cc(),
                                direction_pointer: interpreter.dp(),
                            };
                            proof {
                                let cv = artwork.spec_chart(interpreter@.chart).unwrap();
                                let i = codel_under(artwork, interpreter@).spec_block_index().unwrap();
                                crate::canvas::lemma_flat_in_range(cv.spec_width(), cv.spec_height(), interpreter@.coordinate);
                                assert(cv.spec_codels()[crate::canvas::flat(cv.spec_height(), interpreter@.coordinate)].spec_block_index() == Some(i));
                                assert(cv.block_ok(i as int));
                                if first {
                                    lemma_exit_in_bounds(artwork.spec_chart(s0.chart).unwrap(), s0.coordinate, s0.dp, s0.cc);
                                    artwork.lemma_move_valid(s0, exit_of(artwork, s0));
                                }
                            }
                            return Operation::Continue(transition);
                        },
                        None => {
                            proof {
                                lemma_exit_in_bounds(artwork.spec_chart(s0.chart).unwrap(), s0.coordinate, s0.dp, s0.cc);
                                artwork.lemma_move_valid(s0, exit_of(artwork, s0));
                                let cv = artwork.spec_chart(interpreter@.chart).unwrap();
                                crate::canvas::lemma_flat_in_range(cv.spec_width(), cv.spec_height(), interpreter@.coordinate);
                                assert(!cv.spec_codels()[crate::canvas::flat(cv.spec_height(), interpreter@.coordinate)].spec_no_index());
                                first = false;
                            }
                            continue;
                        },
                    }
                },
                CodeState::ModifyPointer(_) => {
                    return Operation::ModifyPointer;
                },
                CodeState::Terminate | CodeState::Error => {
                    return Operation::Terminate;
                },
            }
        }
    }

    /// The same block with every blocked exit resolved.
    fn eliminate_dead_ends(&self) -> (r: LexedBlock)
        requires
            self.view_pair().1.len() == 8,
        ensures
            r.view_pair() == (self.view_pair().0, without_dead_ends(self.view_pair().1)),
    {
        let mut transitions: Vec<Operation> = Vec::new();
        let mut i: usize = 0;
        while i < self.transitions.len()
            invariant
                i <= self.transitions@.len(),
                transitions@ == self.transitions@.subrange(0, i as int),
            decreases self.transitions@.len() - i,
        {
            transitions.push(self.transitions[i]);
            i = i + 1;
        }
        proof {
            assert(transitions@ =~= self.transitions@);
        }
        let mut k: usize = 0;
        while k < 8
            invariant
                k <= 8,
                self.transitions@.len() == 8,
                transitions@ == resolved_upto(self.transitions@, k as nat),
            decreases 8 - k,
        {
            proof {
                lemma_resolved_upto(self.transitions@, k as nat);
            }
            let (dp, cc) = slot_pointers(k);
            let op = resolve_slot(&transitions, dp, cc);
            transitions.set(k, op);
            k = k + 1;
        }
        LexedBlock { index: self.index, transitions }
    }
}

/// One chart, lexed: its blocks and its index.
pub struct LexedChart {
    blocks: Vec<LexedBlock>,
    index: ChartIndex,
}

impl LexedChart {
    pub closed spec fn view_pair(self) -> LexedView {
        (self.index, self.blocks@.map_values(|b: LexedBlock| b.view_pair()))
    }

    fn new(blocks: Vec<LexedBlock>, index: ChartIndex) -> (r: LexedChart)
        ensures
            r.view_pair() == (index, blocks@.map_values(|b: LexedBlock| b.view_pair())),
    {
        LexedChart { blocks, index }
    }

    /// The same chart with the blocked exits of every block resolved.
    fn eliminate_dead_ends(&self) -> (r: LexedChart)
        requires
            tables_full(self.view_pair().1),
        ensures
            r.view_pair() == (self.view_pair().0, resolve_blocks(self.view_pair().1)),
    {
        let mut blocks: Vec<LexedBlock> = Vec::new();
        let mut i: usize = 0;
        while i < self.blocks.len()
            invariant
                i <= self.blocks@.len(),
                tables_full(self.view_pair().1),
                blocks@.len() == i,
                forall|j: int| 0 <= j < i ==> (#[trigger] blocks@[j]).view_pair() == resolve_blocks(self.view_pair().1)[j],
            decreases self.blocks@.len() - i,
        {
            proof {
                assert(self.view_pair().1[i as int] == self.blocks@[i as int].view_pair());
            }
            let block = self.blocks[i].eliminate_dead_ends();
            blocks.push(block);
            i = i + 1;
        }
        let r = LexedChart { blocks, index: self.index };
        proof {
            assert(r.view_pair().1 =~= resolve_blocks(self.view_pair().1));
        }
        r
    }
}

/// An artwork, lexed: its charts, in order.
pub struct LexedArtwork {
    charts: Vec<LexedChart>,
}

impl View for LexedArtwork {
    type V = Seq<LexedView>;

    closed spec fn view(&self) -> Seq<LexedView> {
        self.charts@.map_values(|c: LexedChart| c.view_pair())
    }
}

impl LexedArtwork {
    /// The first pass: every block of every chart that exists, with its table.
    fn new(artwork: &impl Interpretable) -> (r: LexedArtwork)
        requires
            artwork.spec_ok(),
            lex_ok(artwork),
        ensures
            r@ == first_pass_charts(artwork, artwork.spec_max_chart_index() as nat),
    {
        let mut charts: Vec<LexedChart> = Vec::new();
        let max = artwork.max_chart_index();
        let mut index: usize = 0;
        while index < max
            invariant
                artwork.spec_ok(),
                lex_ok(artwork),
                max == artwork.spec_max_chart_index(),
                index <= max,
                charts@.len() == first_pass_charts(artwork, index as nat).len(),
                forall|j: int| 0 <= j < charts@.len() ==> (#[trigger] charts@[j]).view_pair() == first_pass_charts(artwork, index as nat)[j],
            decreases max - index,
        {
            let canvas = match artwork.canvas_from_index(index) {
                Some(c) => c,
                None => {
                    proof {
                        assert(first_pass_charts(artwork, (index + 1) as nat) == first_pass_charts(artwork, index as nat));
                    }
                    index = index + 1;
                    continue;
                },
            };
            proof {
                artwork.lemma_charts_ok(index);
            }
            let mut blocks: Vec<LexedBlock> = Vec::new();
            let mut b: usize = 0;
            while b < canvas.blocks().len()
                invariant
                    artwork.spec_ok(),
                    lex_ok(artwork),
                    index < max,
                    max == artwork.spec_max_chart_index(),
                    artwork.spec_chart(index) == Some(*canvas),
                    b <= canvas.spec_blocks().len(),
                    blocks@.len() == b,
                    forall|j: int| 0 <= j < b ==> (#[trigger] blocks@[j]).view_pair() == first_pass_blocks(artwork, index, *canvas)[j],
                decreases canvas.spec_blocks().len() - b,
            {
                proof {
                    assert forall|k: int| 0 <= k < 8 implies #[trigger] operation_ok(artwork,
                        exit_view(artwork.spec_chart(index).unwrap(), index, b as int, slot_dp(k), slot_cc(k))) by {}
                }
                let block = LexedBlock::new(artwork, index, &canvas.blocks()[b], Ghost(b as int));
                blocks.push(block);
                b = b + 1;
            }
            let lexed_chart = LexedChart::new(blocks, index);
            proof {
                assert(lexed_chart.view_pair().1 =~= first_pass_blocks(artwork, index, *canvas));
                assert(first_pass_charts(artwork, (index + 1) as nat)
                    == first_pass_charts(artwork, index as nat).push((index, first_pass_blocks(artwork, index, *canvas))));
            }
            charts.push(lexed_chart);
            index = index + 1;
        }
        let r = LexedArtwork { charts };
        proof {
            assert(r@ =~= first_pass_charts(artwork, max as nat));
        }
        r
    }

    /// The same artwork with the blocked exits of every block resolved.
    fn eliminate_dead_ends(&self) -> (r: LexedArtwork)
        requires
            forall|k: int| 0 <= k < self@.len() ==> tables_full(#[trigger] self@[k].1),
        ensures
            r@ == resolve_charts(self@),
    {
        let mut charts: Vec<LexedChart> = Vec::new();
        let mut i: usize = 0;
        while i < self.charts.len()
            invariant
                i <= self.charts@.len(),
                forall|k: int| 0 <= k < self@.len() ==> tables_full(#[trigger] self@[k].1),
                charts@.len() == i,
                forall|j: int| 0 <= j < i ==> (#[trigger] charts@[j]).view_pair() == resolve_charts(self@)[j],
            decreases self.charts@.len() - i,
        {
            proof {
                assert(self@[i as int] == self.charts@[i as int].view_pair());
            }
            let chart = self.charts[i].eliminate_dead_ends();
            charts.push(chart);
            i = i + 1;
        }
        let r = LexedArtwork { charts };
        proof {
            assert(r@ =~= resolve_charts(self@));
        }
        r
    }

    /// The number of lexed charts.
    pub fn chart_count(&self) -> (n: usize)
        ensures
            n == self@.len(),
    {
        self.charts.len()
    }

    /// The index of the lexed chart at `position`, and its number of blocks.
    pub fn chart_at(&self, position: usize) -> (r: Option<(ChartIndex, usize)>)
        ensures
            match r {
                Some((i, n)) => position < self@.len() && i == self@[position as int].0 && n == self@[position as int].1.len(),
                None => position >= self@.len(),
            },
    {
        if position >= self.charts.len() {
            return None;
        }
        let chart = &self.charts[position];
        proof {
            assert(self@[position as int] == chart.view_pair());
        }
        Some((chart.index, chart.blocks.len()))
    }

    /// What leaving block `block` of the lexed chart at `position` with the
    /// pointers `dp` and `cc` does, if there is such a block.
    pub fn operation(&self, position: usize, block: usize, dp: DP, cc: CC) -> (r: Option<Operation>)
        ensures
            match r {
                Some(op) => position < self@.len() && block < self@[position as int].1.len()
                    && self@[position as int].1[block as int].1.len() > slot(dp, cc)
                    && op == self@[position as int].1[block as int].1[slot(dp, cc)],
                None => position >= self@.len() || block >= self@[position as int].1.len()
                    || self@[position as int].1[block as int].1.len() <= slot(dp, cc),
            },
    {
        if position >= self.charts.len() {
            return None;
        }
        let chart = &self.charts[position];
        proof {
            assert(self@[position as int] == chart.view_pair());
        }
        if block >= chart.blocks.len() {
            return None;
        }
        let lexed_block = &chart.blocks[block];
        proof {
            assert(self@[position as int].1[block as int] == lexed_block.view_pair());
        }
        let k = slot_of(dp, cc);
        if k >= lexed_block.transitions.len() {
            return None;
        }
        Some(lexed_block.transitions[k])
    }
}

/// Lexes artworks.
pub struct Lexer {}

impl Lexer {
    fn first_pass(artwork: &impl Interpretable) -> (r: LexedArtwork)
        requires
            artwork.spec_ok(),
            lex_ok(artwork),
        ensures
            r@ == first_pass_charts(artwork, artwork.spec_max_chart_index() as nat),
    {
        LexedArtwork::new(artwork)
    }

    fn second_pass(artwork: LexedArtwork) -> (r: LexedArtwork)
        requires
            forall|k: int| 0 <= k < artwork@.len() ==> tables_full(#[trigger] artwork@[k].1),
        ensures
            r@ == resolve_charts(artwork@),
    {
        artwork.eliminate_dead_ends()
    }

    /// Lexes an artwork: for each chart that exists, in order, and each of its
    /// blocks, what leaving the block does for each pair of pointers, blocked
    /// exits resolved (see `lexed`).
    pub fn lex(artwork: &impl Interpretable) -> (r: LexedArtwork)
        requires
            artwork.spec_ok(),
            lex_ok(artwork),
        ensures
            r@ == lexed(artwork),
    {
        let first = Lexer::first_pass(artwork);
        proof {
            lemma_first_pass_full(artwork, artwork.spec_max_chart_index() as nat);
        }
        Lexer::second_pass(first)
    }
}

/// Every table of the first pass has a slot for each pair of pointers.
proof fn lemma_first_pass_full<A: Interpretable>(a: &A, n: nat)
    ensures
        forall|k: int| 0 <= k < first_pass_charts(a, n).len() ==> tables_full(#[trigger] first_pass_charts(a, n)[k].1),
    decreases n,
{
    if n > 0 {
        lemma_first_pass_full(a, (n - 1) as nat);
        let prev = first_pass_charts(a, (n - 1) as nat);
        assert forall|k: int| 0 <= k < first_pass_charts(a, n).len() implies tables_full(#[trigger] first_pass_charts(a, n)[k].1) by {
            if k < prev.len() {
                assert(first_pass_charts(a, n)[k] == prev[k]);
            }
        }
    }
}

} // verus!
