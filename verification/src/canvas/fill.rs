//! Building the blocks of a canvas: from each coloured codel that no block
//! holds yet, a scan-line fill, completed by a search that gives the block the
//! whole connected region of its colour.

use vstd::prelude::*;
use vstd::arithmetic::power::pow;

use crate::canvas::{
    Canvas, Codel, CodelBlock, Coordinate, adjacent, cells_in, count_free, count_in, flat, grows, hue_of, joined,
    lemma_flat_in_range, lemma_flat_injective, lemma_joined_grow, lemma_joined_here, lemma_joined_step, on_grid,
    at_least_as_far, is_extreme, lemma_joined_closed,
};
use crate::interpreter::{CC, DP};
use crate::palette::PietColour;

verus! {

pub proof fn lemma_count_update(s: Seq<Codel>, i: int, b: usize)
    requires
        0 <= i < s.len(),
        s[i].spec_no_index(),
    ensures
        count_in(s.update(i, s[i].spec_with_index(b)), b) == count_in(s, b) + 1,
        count_free(s.update(i, s[i].spec_with_index(b))) + 1 == count_free(s),
        forall|b2: usize| b2 != b ==> count_in(#[trigger] s.update(i, s[i].spec_with_index(b)), b2) == count_in(s, b2),
    decreases s.len(),
{
    let t = s.update(i, s[i].spec_with_index(b));
    s[i].lemma_with_index(b);
    if i == s.len() - 1 {
        assert(t.drop_last() =~= s.drop_last());
    } else {
        assert(t.drop_last() =~= s.drop_last().update(i, s[i].spec_with_index(b)));
        lemma_count_update(s.drop_last(), i, b);
        assert(t.last() == s.last());
    }
    assert forall|b2: usize| b2 != b implies count_in(#[trigger] s.update(i, s[i].spec_with_index(b)), b2) == count_in(s, b2) by {
        if i == s.len() - 1 {
        } else {
            lemma_count_update(s.drop_last(), i, b);
            assert(count_in(s.drop_last().update(i, s[i].spec_with_index(b)), b2) == count_in(s.drop_last(), b2));
        }
    }
}

pub proof fn lemma_count_lt(s: Seq<Codel>, i: int, b: usize)
    requires
        0 <= i < s.len(),
        s[i].spec_block_index() != Some(b),
    ensures
        count_in(s, b) < s.len(),
    decreases s.len(),
{
    lemma_count_le(s.drop_last(), b);
    if i < s.len() - 1 {
        lemma_count_lt(s.drop_last(), i, b);
    }
}

pub proof fn lemma_count_le(s: Seq<Codel>, b: usize)
    ensures
        count_in(s, b) <= s.len(),
    decreases s.len(),
{
    if s.len() > 0 {
        lemma_count_le(s.drop_last(), b);
    }
}

/// Giving free codels to block `b` never makes more codels free, leaves every
/// other block's count as it was, and frees as many as before only if it
/// changed nothing.
pub proof fn lemma_grows_counts(old: Seq<Codel>, new: Seq<Codel>, b: usize)
    requires
        grows(old, new, b),
    ensures
        count_free(new) <= count_free(old),
        count_free(new) == count_free(old) ==> new == old,
        forall|b2: usize| b2 != b ==> #[trigger] count_in(new, b2) == count_in(old, b2),
    decreases old.len(),
{
    if old.len() > 0 {
        let (o, n) = (old.drop_last(), new.drop_last());
        assert forall|i: int| 0 <= i < o.len() implies (#[trigger] n[i] == o[i]
            || (o[i].spec_no_index() && n[i] == o[i].spec_with_index(b))) by {
            assert(new[i] == old[i] || (old[i].spec_no_index() && new[i] == old[i].spec_with_index(b)));
        }
        lemma_grows_counts(o, n, b);
        let k = old.len() - 1;
        assert(new[k] == old[k] || (old[k].spec_no_index() && new[k] == old[k].spec_with_index(b)));
        old[k].lemma_with_index(b);
        if count_free(new) == count_free(old) {
            assert(new[k] == old[k]);
            assert(n == o);
            assert forall|j: int| 0 <= j < new.len() implies new[j] == old[j] by {
                if j < k {
                    assert(new[j] == n[j]);
                    assert(old[j] == o[j]);
                }
            }
            assert(new =~= old);
        }
        assert forall|b2: usize| b2 != b implies #[trigger] count_in(new, b2) == count_in(old, b2) by {
            assert(count_in(n, b2) == count_in(o, b2));
        }
    } else {
        assert(new =~= old);
    }
}

pub proof fn lemma_grows_trans(s1: Seq<Codel>, s2: Seq<Codel>, s3: Seq<Codel>, b: usize)
    requires
        grows(s1, s2, b),
        grows(s2, s3, b),
    ensures
        grows(s1, s3, b),
{
    assert forall|i: int| 0 <= i < s1.len() implies (#[trigger] s3[i] == s1[i]
        || (s1[i].spec_no_index() && s3[i] == s1[i].spec_with_index(b))) by {
        assert(s2[i] == s1[i] || (s1[i].spec_no_index() && s2[i] == s1[i].spec_with_index(b)));
        assert(s3[i] == s2[i] || (s2[i].spec_no_index() && s3[i] == s2[i].spec_with_index(b)));
        s1[i].lemma_with_index(b);
    }
}

/// A span waiting to be scanned: row `y`, columns `xl..=xr`, and the
/// direction `dy` (1 or -1) away from the row it was found from.
pub type Span = (usize, usize, usize, i8);

pub open spec fn span_ok(e: Span, w: int, h: int) -> bool {
    &&& e.0 < h
    &&& e.1 <= e.2 < w
    &&& (e.3 == 1 || e.3 == -1)
}

/// How far a span may still travel: spans found without giving any codel to
/// the block lie east of, or one row further than, the span they came from.
pub open spec fn span_rank(e: Span, w: int, h: int) -> int {
    (w - 1 - e.1) * h + if e.3 == 1 { e.0 as int } else { h - 1 - e.0 }
}

/// A measure of the spans left to scan that every scan shrinks unless it
/// gives a codel to the block.
pub open spec fn spans_measure(s: Seq<Span>, w: int, h: int) -> nat
    decreases s.len(),
{
    if s.len() == 0 {
        0
    } else {
        spans_measure(s.drop_last(), w, h) + pow(w + 2, span_rank(s.last(), w, h) as nat) as nat
    }
}

pub proof fn lemma_rank_range(e: Span, w: int, h: int)
    requires
        span_ok(e, w, h),
    ensures
        0 <= span_rank(e, w, h) < w * h,
{
    let d: int = if e.3 == 1 { e.0 as int } else { h - 1 - e.0 };
    assert(0 <= d < h);
    assert(0 <= (w - 1 - e.1) * h + d < w * h) by (nonlinear_arith)
        requires 0 <= w - 1 - e.1 < w, 0 <= d < h;
}

/// A span found further along the same direction, starting no further west,
/// ranks lower.
pub proof fn lemma_rank_forward(e: Span, c: Span, w: int, h: int)
    requires
        span_ok(e, w, h),
        span_ok(c, w, h),
        c.3 == e.3,
        c.0 == e.0 - e.3,
        c.1 >= e.1,
    ensures
        span_rank(c, w, h) < span_rank(e, w, h),
{
    assert((w - 1 - c.1) * h <= (w - 1 - e.1) * h) by (nonlinear_arith)
        requires w - 1 - c.1 <= w - 1 - e.1, h >= 0;
}

/// A span that starts east of another ranks lower.
pub proof fn lemma_rank_east(e: Span, t: Span, w: int, h: int)
    requires
        span_ok(e, w, h),
        span_ok(t, w, h),
        t.1 > e.1,
    ensures
        span_rank(t, w, h) < span_rank(e, w, h),
{
    let dt: int = if t.3 == 1 { t.0 as int } else { h - 1 - t.0 };
    let de: int = if e.3 == 1 { e.0 as int } else { h - 1 - e.0 };
    assert((w - 1 - t.1) * h + dt < (w - 1 - e.1) * h + de) by (nonlinear_arith)
        requires w - 1 - t.1 <= w - 2 - e.1, 0 <= dt < h, 0 <= de, h > 0;
}

pub proof fn lemma_measure_push(s: Seq<Span>, e: Span, w: int, h: int)
    requires
        w >= 0,
    ensures
        spans_measure(s.push(e), w, h) == spans_measure(s, w, h) + pow(w + 2, span_rank(e, w, h) as nat),
{
    assert(s.push(e).drop_last() =~= s);
    vstd::arithmetic::power::lemma_pow_positive(w + 2, span_rank(e, w, h) as nat);
}

/// Pushing a span that ranks below `r` adds less than `(w + 2)^(r - 1)`.
pub proof fn lemma_push_below(s: Seq<Span>, e: Span, w: int, h: int, r: int)
    requires
        w >= 0,
        1 <= r,
        span_rank(e, w, h) <= r - 1,
        0 <= span_rank(e, w, h),
    ensures
        spans_measure(s.push(e), w, h) <= spans_measure(s, w, h) + pow(w + 2, (r - 1) as nat),
{
    lemma_measure_push(s, e, w, h);
    vstd::arithmetic::power::lemma_pow_increases((w + 2) as nat, span_rank(e, w, h) as nat, (r - 1) as nat);
}

/// Fewer than `w + 2` pushes that each add at most `(w + 2)^(r - 1)` add less than `(w + 2)^r`.
pub proof fn lemma_pushes_below(k: int, w: int, r: int)
    requires
        w >= 0,
        1 <= r,
        0 <= k < w + 2,
    ensures
        k * pow(w + 2, (r - 1) as nat) < pow(w + 2, r as nat),
{
    let b = w + 2;
    let p = pow(b, (r - 1) as nat);
    vstd::arithmetic::power::lemma_pow_positive(b, (r - 1) as nat);
    vstd::arithmetic::power::lemma_pow_adds(b, 1, (r - 1) as nat);
    vstd::arithmetic::power::lemma_pow1(b);
    assert((1 + (r - 1)) as nat == r as nat);
    assert(k * p < b * p) by (nonlinear_arith)
        requires k < b, p > 0;
}

pub proof fn lemma_count_none(s: Seq<Codel>, b: usize)
    requires
        forall|i: int| 0 <= i < s.len() ==> (#[trigger] s[i]).spec_block_index() != Some(b),
    ensures
        count_in(s, b) == 0,
    decreases s.len(),
{
    if s.len() > 0 {
        assert forall|i: int| 0 <= i < s.drop_last().len() implies (#[trigger] s.drop_last()[i]).spec_block_index() != Some(b) by {
            assert(s.drop_last()[i] == s[i]);
        }
        lemma_count_none(s.drop_last(), b);
    }
}

/// Giving codels to a block changes no codel's colour, and leaves every codel
/// that a block held as it was.
pub proof fn lemma_grows_keeps(old: Seq<Codel>, new: Seq<Codel>, b: usize)
    requires
        grows(old, new, b),
    ensures
        forall|i: int| 0 <= i < old.len() ==> (#[trigger] new[i]).spec_colour_name() == old[i].spec_colour_name(),
        forall|i: int| 0 <= i < old.len() && !old[i].spec_no_index() ==> #[trigger] new[i] == old[i],
        forall|i: int| 0 <= i < old.len() && old[i].spec_no_index() ==>
            (#[trigger] new[i]).spec_no_index() || new[i].spec_block_index() == Some(b),
{
    assert forall|i: int| 0 <= i < old.len() implies (#[trigger] new[i]).spec_colour_name() == old[i].spec_colour_name()
        && (old[i].spec_no_index() ==> new[i].spec_no_index() || new[i].spec_block_index() == Some(b)) by {
        old[i].lemma_with_index(b);
    }
}

/// A block that holds no codel yet has the seed as every extreme.
pub proof fn lemma_fresh_extremes(blk: CodelBlock, seed: Coordinate)
    requires
        blk.spec_fresh_at(seed),
    ensures
        blk.spec_extremes_of(Set::empty().insert(seed)),
{
    assert forall|dp: DP, cc: CC| is_extreme(Set::empty().insert(seed), dp, cc, #[trigger] blk.spec_coord(dp, cc)) by {
        assert(blk.spec_coord(dp, cc) == seed);
        match dp { DP::North => {}, DP::East => {}, DP::South => {}, DP::West => {} }
        match cc { CC::Left => {}, CC::Right => {} }
    }
}

/// Giving codels to block `b` keeps what it held and what other blocks
/// hold, frees no codel, and keeps every codel and span anchored.
#[verifier::spinoff_prover]
pub proof fn lemma_grows_monotone(before: Canvas, after: Canvas, b: usize, seed: Coordinate)
    requires
        before.spec_dimensions() == after.spec_dimensions(),
        before.spec_codels().len() == before.spec_width() * before.spec_height(),
        grows(before.spec_codels(), after.spec_codels(), b),
    ensures
        before.cells(b).subset_of(after.cells(b)),
        forall|b2: usize| b2 != b ==> #[trigger] after.cells(b2) == before.cells(b2),
        forall|c: Coordinate| after.in_bounds(c) && (#[trigger] after.spec_codel(c)).spec_no_index()
            ==> before.spec_codel(c).spec_no_index(),
        forall|c: Coordinate| #[trigger] before.anchored(b, seed, c) ==> after.anchored(b, seed, c),
        forall|e: Span| #[trigger] before.span_anchored(b, seed, e) ==> after.span_anchored(b, seed, e),
{
    let w = before.spec_width();
    let h = before.spec_height();
    let s0 = before.spec_codels();
    let s1 = after.spec_codels();
    assert forall|c: Coordinate| on_grid(w, h, c) implies
        (#[trigger] s1[flat(h, c)] == s0[flat(h, c)] || (s0[flat(h, c)].spec_no_index()
            && s1[flat(h, c)] == s0[flat(h, c)].spec_with_index(b))) by {
        lemma_flat_in_range(w, h, c);
    }
    assert forall|c: Coordinate| #[trigger] before.cells(b).contains(c) implies after.cells(b).contains(c) by {
        lemma_flat_in_range(w, h, c);
        s0[flat(h, c)].lemma_with_index(b);
    }
    assert forall|b2: usize| b2 != b implies #[trigger] after.cells(b2) == before.cells(b2) by {
        assert forall|c: Coordinate| after.cells(b2).contains(c) <==> before.cells(b2).contains(c) by {
            if on_grid(w, h, c) {
                lemma_flat_in_range(w, h, c);
                s0[flat(h, c)].lemma_with_index(b);
            }
        }
        assert(after.cells(b2) =~= before.cells(b2));
    }
    assert forall|c: Coordinate| after.in_bounds(c) && (#[trigger] after.spec_codel(c)).spec_no_index()
        implies before.spec_codel(c).spec_no_index() by {
        lemma_flat_in_range(w, h, c);
        s0[flat(h, c)].lemma_with_index(b);
    }
    assert forall|c: Coordinate| #[trigger] before.anchored(b, seed, c) implies after.anchored(b, seed, c) by {
        if c != seed {
            let d = choose|d: Coordinate| #[trigger] adjacent(c, d) && before.cells(b).insert(seed).contains(d);
            assert(after.cells(b).insert(seed).contains(d));
        }
    }
    assert forall|e: Span| #[trigger] before.span_anchored(b, seed, e) implies after.span_anchored(b, seed, e) by {
        assert forall|x: usize| e.1 <= x <= e.2 implies ((x, e.0) == seed
            || (0 <= e.0 + e.3 && #[trigger] after.cells(b).insert(seed).contains((x, (e.0 + e.3) as usize)))) by {
            if (x, e.0) != seed {
                assert(before.cells(b).insert(seed).contains((x, (e.0 + e.3) as usize)));
            }
        }
    }
}

/// Giving codels to block `b` changes nothing about which codels can join it.
pub proof fn lemma_grows_fills(before: Canvas, after: Canvas, b: usize, colour: PietColour)
    requires
        before.spec_dimensions() == after.spec_dimensions(),
        before.spec_codels().len() == before.spec_width() * before.spec_height(),
        grows(before.spec_codels(), after.spec_codels(), b),
    ensures
        forall|c: Coordinate| before.in_bounds(c) ==> #[trigger] after.fills(c, colour, b) == before.fills(c, colour, b),
{
    let w = before.spec_width();
    let h = before.spec_height();
    assert forall|c: Coordinate| before.in_bounds(c) implies #[trigger] after.fills(c, colour, b) == before.fills(c, colour, b) by {
        lemma_flat_in_range(w, h, c);
        before.spec_codels()[flat(h, c)].lemma_with_index(b);
    }
}

/// The number of entries of `s` other than `v`.
pub open spec fn count_other(s: Seq<usize>, v: usize) -> nat
    decreases s.len(),
{
    if s.len() == 0 {
        0
    } else {
        count_other(s.drop_last(), v) + if s.last() != v { 1nat } else { 0nat }
    }
}

/// Setting an entry other than `v` to `v` leaves one fewer such entry.
pub proof fn lemma_count_other_update(s: Seq<usize>, i: int, v: usize)
    requires
        0 <= i < s.len(),
        s[i] != v,
    ensures
        count_other(s.update(i, v), v) + 1 == count_other(s, v),
    decreases s.len(),
{
    let t = s.update(i, v);
    if i == s.len() - 1 {
        assert(t.drop_last() =~= s.drop_last());
    } else {
        lemma_count_other_update(s.drop_last(), i, v);
        assert(t.drop_last() =~= s.drop_last().update(i, v));
    }
}

/// The entry for the codel at `c` of a column-major grid of height `h` is `v`.
pub open spec fn marked(s: Seq<usize>, h: int, c: Coordinate, v: usize) -> bool {
    s[flat(h, c)] == v
}

/// Setting the entry for `d` to `v` marks `d` and leaves every other codel's
/// mark as it was.
proof fn lemma_mark(s: Seq<usize>, w: int, h: int, d: Coordinate, v: usize)
    requires
        on_grid(w, h, d),
        s.len() == w * h,
    ensures
        forall|c: Coordinate| on_grid(w, h, c) ==>
            (#[trigger] marked(s.update(flat(h, d), v), h, c, v) <==> (c == d || marked(s, h, c, v))),
{
    lemma_flat_in_range(w, h, d);
    assert forall|c: Coordinate| on_grid(w, h, c) implies
        (#[trigger] marked(s.update(flat(h, d), v), h, c, v) <==> (c == d || marked(s, h, c, v))) by {
        lemma_flat_in_range(w, h, c);
        if c != d && flat(h, c) == flat(h, d) {
            lemma_flat_injective(h, c, d);
        }
    }
}

/// Giving free codels to block `b` keeps the first codel of another block.
proof fn lemma_grows_first(before: Canvas, after: Canvas, b: usize, b2: usize, c: Coordinate)
    requires
        before.spec_dimensions() == after.spec_dimensions(),
        before.spec_codels().len() == before.spec_width() * before.spec_height(),
        grows(before.spec_codels(), after.spec_codels(), b),
        before.first_of_block(b2, c),
        b2 != b,
    ensures
        after.first_of_block(b2, c),
{
    let w = before.spec_width();
    let h = before.spec_height();
    lemma_grows_monotone(before, after, b, c);
    assert(after.cells(b2) == before.cells(b2));
    assert forall|e: Coordinate| after.in_bounds(e) && flat(h, e) < flat(h, c)
        && (#[trigger] after.spec_codel(e)) is Colour
        implies (after.spec_codel(e).spec_block_index() matches Some(j) && j < b2) by {
        lemma_flat_in_range(w, h, e);
        before.spec_codels()[flat(h, e)].lemma_with_index(b);
        assert(before.spec_codel(e) is Colour);
    }
}

/// Giving free codels to block `b` keeps every block below `limit <= b`
/// closed.
proof fn lemma_grows_closed(before: Canvas, after: Canvas, b: usize, limit: int)
    requires
        before.spec_dimensions() == after.spec_dimensions(),
        before.spec_codels().len() == before.spec_width() * before.spec_height(),
        grows(before.spec_codels(), after.spec_codels(), b),
        before.closed_below(limit),
        limit <= b,
    ensures
        after.closed_below(limit),
{
    let w = before.spec_width();
    let h = before.spec_height();
    assert forall|c: Coordinate, d: Coordinate| #[trigger] after.kin(c, d)
        && (after.spec_codel(c).spec_block_index() matches Some(j) && j < limit)
        implies after.spec_codel(d).spec_block_index() == after.spec_codel(c).spec_block_index() by {
        lemma_flat_in_range(w, h, c);
        lemma_flat_in_range(w, h, d);
        let (ci, di) = (flat(h, c), flat(h, d));
        before.spec_codels()[ci].lemma_with_index(b);
        before.spec_codels()[di].lemma_with_index(b);
        assert(after.spec_codels()[ci] == before.spec_codels()[ci]);
        assert(before.kin(c, d));
    }
}

impl Canvas {
    /// `c` and `d` are neighbouring codels of the canvas of one colour.
    pub open spec fn kin(self, c: Coordinate, d: Coordinate) -> bool {
        &&& self.in_bounds(c)
        &&& self.in_bounds(d)
        &&& adjacent(c, d)
        &&& self.spec_codel(c).spec_colour_name() == self.spec_codel(d).spec_colour_name()
    }

    /// Each block below `limit` holds, with every codel that it holds, the
    /// neighbours of that codel's colour.
    pub open spec fn closed_below(self, limit: int) -> bool {
        forall|c: Coordinate, d: Coordinate| #[trigger] self.kin(c, d)
            && (self.spec_codel(c).spec_block_index() matches Some(j) && j < limit)
            ==> self.spec_codel(d).spec_block_index() == self.spec_codel(c).spec_block_index()
    }

    /// Block `b` holds `c`, and a block before `b` holds every coloured codel
    /// that comes before `c`, column by column.
    pub open spec fn first_of_block(self, b: usize, c: Coordinate) -> bool {
        &&& self.cells(b).contains(c)
        &&& forall|e: Coordinate| self.in_bounds(e) && flat(self.spec_height(), e) < flat(self.spec_height(), c)
            && (#[trigger] self.spec_codel(e)) is Colour
            ==> (self.spec_codel(e).spec_block_index() matches Some(j) && j < b)
    }

    /// Block `b` has a first codel (see `first_of_block`).
    pub open spec fn has_first(self, b: usize) -> bool {
        exists|c: Coordinate| #[trigger] self.first_of_block(b, c)
    }

    /// The blocks are numbered in the order of their first codels, column by
    /// column: each block's first codel comes after every codel of the
    /// blocks before it, and before every codel of the blocks after it.
    pub open spec fn numbered_in_order(self) -> bool {
        forall|b: int| 0 <= b < self.spec_blocks().len() ==> #[trigger] self.has_first(b as usize)
    }

    /// The codels of colour `colour` joined to `seed` through codels of that
    /// colour: the connected region of that colour that holds the seed.
    pub open spec fn region(self, colour: PietColour, seed: Coordinate) -> Set<Coordinate> {
        Set::new(|d: Coordinate| joined(self.of_colour(colour), d, seed))
    }

    /// The codels of the canvas of colour `colour`.
    pub open spec fn of_colour(self, colour: PietColour) -> Set<Coordinate> {
        Set::new(|e: Coordinate| self.in_bounds(e) && self.spec_codel(e).spec_colour_name() == colour)
    }

    /// The blocks are maximal: two neighbouring codels of one colour, one of
    /// which a block holds, are held by the same block.
    pub open spec fn blocks_maximal(self) -> bool {
        self.closed_below(self.spec_blocks().len() as int)
    }
}

/// The indices of the codels of `s` that block `b` holds.
pub open spec fn indices_of(s: Seq<Codel>, b: usize) -> Set<int> {
    Set::new(|i: int| 0 <= i < s.len() && s[i].spec_block_index() == Some(b))
}

/// `count_in` counts the indices of the codels that block `b` holds.
proof fn lemma_count_indices(s: Seq<Codel>, b: usize)
    ensures
        indices_of(s, b).finite(),
        indices_of(s, b).len() == count_in(s, b),
    decreases s.len(),
{
    if s.len() == 0 {
        assert(indices_of(s, b) =~= Set::empty());
    } else {
        let t = s.drop_last();
        let n = s.len() - 1;
        lemma_count_indices(t, b);
        if s.last().spec_block_index() == Some(b) {
            assert(indices_of(s, b) =~= indices_of(t, b).insert(n));
            assert(!indices_of(t, b).contains(n));
        } else {
            assert(indices_of(s, b) =~= indices_of(t, b));
        }
    }
}

/// The coordinate kept at index `i` of a column-major grid of height `h`.
pub open spec fn unflat(h: int, i: int) -> Coordinate {
    ((i / h) as usize, (i % h) as usize)
}

/// Block `b` holds as many codels of a grid as `count_in` counts.
proof fn lemma_count_cells(s: Seq<Codel>, w: int, h: int, b: usize)
    requires
        s.len() == w * h,
        w >= 0,
        h > 0,
        w <= usize::MAX,
        h <= usize::MAX,
    ensures
        cells_in(s, w, h, b).finite(),
        cells_in(s, w, h, b).len() == count_in(s, b),
{
    lemma_count_indices(s, b);
    let f = |i: int| unflat(h, i);
    let x = indices_of(s, b);
    let y = cells_in(s, w, h, b);
    assert forall|i: int, j: int| x.contains(i) && x.contains(j) && #[trigger] f(i) == #[trigger] f(j) implies i == j by {
        vstd::arithmetic::div_mod::lemma_fundamental_div_mod(i, h);
        vstd::arithmetic::div_mod::lemma_fundamental_div_mod(j, h);
        assert(0 <= i / h < w) by (nonlinear_arith)
            requires 0 <= i < w * h, i == h * (i / h) + i % h, 0 <= i % h < h, h > 0;
        assert(0 <= j / h < w) by (nonlinear_arith)
            requires 0 <= j < w * h, j == h * (j / h) + j % h, 0 <= j % h < h, h > 0;
        assert(f(i).0 == i / h && f(j).0 == j / h);
        assert(f(i).1 == i % h && f(j).1 == j % h);
        assert(i == h * (i / h) + i % h);
    }
    assert forall|c: Coordinate| #[trigger] y.contains(c) <==> x.map(f).contains(c) by {
        if y.contains(c) {
            lemma_flat_in_range(w, h, c);
            let i = flat(h, c);
            vstd::arithmetic::div_mod::lemma_fundamental_div_mod(i, h);
            assert(i / h == c.0 && i % h == c.1) by (nonlinear_arith)
                requires i == c.0 * h + c.1, 0 <= c.1 < h, i == h * (i / h) + i % h, 0 <= i % h < h;
            assert(x.contains(i));
            assert(f(i) == c);
        }
        if x.map(f).contains(c) {
            let i = choose|i: int| x.contains(i) && c == f(i);
            vstd::arithmetic::div_mod::lemma_fundamental_div_mod(i, h);
            assert(i / h < w) by (nonlinear_arith)
                requires 0 <= i < w * h, i == h * (i / h) + i % h, 0 <= i % h < h, h > 0;
            assert(0 <= i / h) by (nonlinear_arith) requires 0 <= i, h > 0;
            assert(flat(h, c) == i) by (nonlinear_arith)
                requires c.0 == i / h, c.1 == i % h, i == h * (i / h) + i % h;
        }
    }
    assert(x.map(f) =~= y);
    vstd::set_lib::lemma_map_size(x, y, f);
}

/// A block that holds its seed, whose codels have the seed's colour and are
/// joined to the seed, and which holds every neighbour of that colour of its
/// codels, is the region of that colour that holds the seed.
proof fn lemma_block_region(cv: Canvas, b: usize, colour: PietColour, seed: Coordinate)
    requires
        cv.cells(b).contains(seed),
        cv.linked(b, seed),
        forall|c: Coordinate| #[trigger] cv.cells(b).contains(c) ==> cv.spec_codel(c).spec_colour_name() == colour,
        cv.closed_below(b + 1),
    ensures
        cv.cells(b) == cv.region(colour, seed),
{
    let r = cv.of_colour(colour);
    assert(cv.cells(b).insert(seed) =~= cv.cells(b));
    assert(cv.cells(b).subset_of(r));
    assert forall|d: Coordinate| cv.cells(b).contains(d) <==> #[trigger] cv.region(colour, seed).contains(d) by {
        if cv.cells(b).contains(d) {
            crate::canvas::lemma_joined_grow(cv.cells(b), r, d, seed);
        }
        if joined(r, d, seed) {
            let sm = cv.cells(b).intersect(r);
            assert forall|e: Coordinate, f: Coordinate| sm.contains(e) && #[trigger] adjacent(e, f) && r.contains(f)
                implies sm.contains(f) by {
                assert(cv.kin(e, f));
                assert(cv.spec_codel(e).spec_block_index() == Some(b));
            }
            lemma_joined_closed(r, sm, d, seed);
        }
    }
    assert(cv.cells(b) =~= cv.region(colour, seed));
}

/// Of a set of codels, at most one lies furthest in the direction `dp` with
/// ties broken by `cc`.
pub proof fn lemma_extreme_unique(cells: Set<Coordinate>, dp: DP, cc: CC, p: Coordinate, q: Coordinate)
    requires
        is_extreme(cells, dp, cc, p),
        is_extreme(cells, dp, cc, q),
    ensures
        p == q,
{
    assert(at_least_as_far(dp, cc, p, q));
    assert(at_least_as_far(dp, cc, q, p));
}

/// On a canvas as its constructors leave it, block `b` knows how many codels
/// it holds, and for each direction pointer and codel chooser its exit codel
/// is the one codel of the block that lies furthest that way: for north and
/// the left chooser, the westmost codel of its northmost row; for north and
/// the right chooser, the eastmost codel of that row; and so on round.
pub proof fn lemma_block_exits(cv: Canvas, b: int, dp: DP, cc: CC, p: Coordinate)
    requires
        cv.wf(),
        0 <= b < cv.spec_blocks().len(),
    ensures
        cv.spec_blocks()[b].spec_size() == cv.cells(b as usize).len(),
        is_extreme(cv.cells(b as usize), dp, cc, p) <==> p == cv.spec_blocks()[b].spec_coord(dp, cc),
{
    assert(cv.block_ok(b));
    let blk = cv.spec_blocks()[b];
    assert(is_extreme(cv.cells(b as usize), dp, cc, blk.spec_coord(dp, cc)));
    if is_extreme(cv.cells(b as usize), dp, cc, p) {
        lemma_extreme_unique(cv.cells(b as usize), dp, cc, p, blk.spec_coord(dp, cc));
    }
    assert(cv.spec_height() > 0) by {
        let c = blk.spec_coord(dp, cc);
        assert(cv.cells(b as usize).contains(c));
    }
    lemma_count_cells(cv.spec_codels(), cv.spec_width(), cv.spec_height(), b as usize);
}

/// On a canvas as its constructors leave it, the block that holds a codel
/// `c` holds exactly the codels joined to `c` through codels of its colour,
/// and its size is their number: the blocks are the connected regions of one
/// colour.
pub proof fn lemma_block_is_region(cv: Canvas, c: Coordinate, d: Coordinate)
    requires
        cv.wf(),
        cv.blocks_connected(),
        cv.blocks_maximal(),
        cv.in_bounds(c),
        cv.spec_codel(c).spec_block_index() is Some,
    ensures
        cv.cells(cv.spec_codel(c).spec_block_index().unwrap()).contains(d)
            <==> joined(cv.of_colour(cv.spec_codel(c).spec_colour_name()), d, c),
        cv.spec_blocks()[cv.spec_codel(c).spec_block_index().unwrap() as int].spec_size()
            == cv.cells(cv.spec_codel(c).spec_block_index().unwrap()).len(),
{
    let b = cv.spec_codel(c).spec_block_index().unwrap();
    let colour = cv.spec_codel(c).spec_colour_name();
    let r = cv.of_colour(colour);
    let w = cv.spec_width();
    let h = cv.spec_height();
    lemma_flat_in_range(w, h, c);
    assert(b < cv.spec_blocks().len());
    assert(cv.block_ok(b as int));
    assert(cv.cells(b).contains(c));
    lemma_count_cells(cv.spec_codels(), w, h, b);
    if cv.cells(b).contains(d) {
        assert(cv.block_connected(b));
        assert(joined(cv.cells(b), d, c));
        assert(cv.cells(b).subset_of(r));
        crate::canvas::lemma_joined_grow(cv.cells(b), r, d, c);
    }
    if joined(r, d, c) {
        let sm = cv.cells(b).intersect(r);
        assert forall|e: Coordinate, f: Coordinate| sm.contains(e) && #[trigger] adjacent(e, f) && r.contains(f)
            implies sm.contains(f) by {
            lemma_flat_in_range(w, h, e);
            assert(cv.kin(e, f));
            assert(cv.spec_codel(e).spec_block_index() == Some(b));
        }
        lemma_joined_closed(r, sm, d, c);
    }
}

/// A block whose codels are all joined to its seed, which it holds, is
/// connected.
proof fn lemma_linked_connected(cv: Canvas, b: usize, seed: Coordinate)
    requires
        cv.linked(b, seed),
        cv.cells(b).contains(seed),
    ensures
        cv.block_connected(b),
{
    assert(cv.cells(b).insert(seed) =~= cv.cells(b));
    assert forall|c: Coordinate, d: Coordinate| #[trigger] cv.cells(b).contains(c) && #[trigger] cv.cells(b).contains(d)
        implies joined(cv.cells(b), c, d) by {
        crate::canvas::lemma_joined_back(cv.cells(b), d, seed);
        crate::canvas::lemma_joined_chain(cv.cells(b), c, seed, d);
    }
}

impl Canvas {
    /// Every codel of block `b` is joined to `seed` by a path through codels
    /// of the block and the seed.
    pub open spec fn linked(self, b: usize, seed: Coordinate) -> bool {
        forall|c: Coordinate| #[trigger] self.cells(b).contains(c) ==> joined(self.cells(b).insert(seed), c, seed)
    }

    /// `c` is the seed, or a neighbour of the seed or of a codel of block `b`.
    pub open spec fn anchored(self, b: usize, seed: Coordinate, c: Coordinate) -> bool {
        c == seed || exists|d: Coordinate| #[trigger] adjacent(c, d) && self.cells(b).insert(seed).contains(d)
    }

    /// Every codel of span `e` is the seed, or lies next to the codel of
    /// block `b` (or the seed) in the row that the span was found from.
    pub open spec fn span_anchored(self, b: usize, seed: Coordinate, e: Span) -> bool {
        forall|x: usize| e.1 <= x <= e.2 ==> ((x, e.0) == seed
            || (0 <= e.0 + e.3 && #[trigger] self.cells(b).insert(seed).contains((x, (e.0 + e.3) as usize))))
    }

    /// The codel at `c` has colour `colour` and is either free or held by block `b`.
    pub open spec fn fills(self, c: Coordinate, colour: PietColour, b: usize) -> bool {
        &&& self.spec_codel(c).spec_colour_name() == colour
        &&& (self.spec_codel(c).spec_no_index() || self.spec_codel(c).spec_block_index() == Some(b))
    }

    /// The state while block `blk`, seeded at `seed` with colour `colour`, is
    /// being built: the blocks before it are well formed, its size counts the
    /// codels that it holds, all of colour `colour`, and its exit codels are
    /// the extremes of those codels together with the seed.
    pub open spec fn building(self, blk: CodelBlock, colour: PietColour, seed: Coordinate) -> bool {
        let b = blk.spec_index();
        &&& self.shape_ok()
        &&& self.spec_height() > 0
        &&& b == self.spec_blocks().len()
        &&& self.indices_below(b + 1)
        &&& forall|b2: int| 0 <= b2 < self.spec_blocks().len() ==> #[trigger] self.block_ok(b2)
        &&& blk.spec_size() == count_in(self.spec_codels(), b)
        &&& blk.spec_extremes_of(self.cells(b).insert(seed))
        &&& self.in_bounds(seed)
        &&& self.spec_codel(seed).spec_colour_name() == colour
        &&& hue_of(colour) is Some
        &&& forall|c: Coordinate| #[trigger] self.cells(b).contains(c) ==> self.spec_codel(c).spec_colour_name() == colour
    }

    /// Whether the codel at `c` has colour `colour` and is free or held by block `b`.
    fn fills_at(&self, c: Coordinate, colour: PietColour, b: usize) -> (r: bool)
        requires
            self.shape_ok(),
            self.in_bounds(c),
        ensures
            r == self.fills(c, colour, b),
    {
        let codel = self.get_codel(c);
        if !codel.is_colour(colour) {
            return false;
        }
        match codel.block_index() {
            None => codel.is_any_colour(),
            Some(i) => i == b,
        }
    }

    /// From `coordinate`, gives the run of codels of the block's colour that
    /// reaches west from it to the block, and returns the run's westmost codel
    /// and whether the run reaches west of `coordinate`; `(None, false)`, with
    /// nothing changed, when the codel at `coordinate` cannot join the block.
    fn find_colour_west_edge(
        &mut self,
        block: &mut CodelBlock,
        Ghost(seed): Ghost<Coordinate>,
        coordinate: Coordinate,
        colour: PietColour,
    ) -> (r: (Option<Coordinate>, bool))
        requires
            old(self).building(*old(block), colour, seed),
            old(self).in_bounds(coordinate),
            old(self).linked(old(block).spec_index(), seed),
            old(self).spec_codel(coordinate).spec_no_index() ==> old(self).anchored(old(block).spec_index(), seed, coordinate),
        ensures
            final(self).building(*final(block), colour, seed),
            final(self).linked(old(block).spec_index(), seed),
            final(block).spec_index() == old(block).spec_index(),
            final(self).spec_dimensions() == old(self).spec_dimensions(),
            final(self).spec_blocks() == old(self).spec_blocks(),
            grows(old(self).spec_codels(), final(self).spec_codels(), old(block).spec_index()),
            r.0 is None <==> !old(self).fills(coordinate, colour, old(block).spec_index()),
            r.0 is None ==> !r.1 && final(self).spec_codels() == old(self).spec_codels(),
            r.0 matches Some(w) ==> {
                &&& w.1 == coordinate.1
                &&& w.0 <= coordinate.0
                &&& (r.1 <==> w.0 < coordinate.0)
                &&& forall|x: usize| w.0 <= x <= coordinate.0 ==>
                    (#[trigger] final(self).spec_codel((x, coordinate.1))).spec_block_index() == Some(old(block).spec_index())
            },
    {
        let ghost b = block.spec_index();
        let ghost s0 = self.spec_codels();
        let bi = block.index();
        if !self.fills_at(coordinate, colour, bi) {
            return (None, false);
        }
        let ghost s_before = *self;
        self.add_coord_to_block(block, Ghost(colour), Ghost(seed), coordinate);
        proof {
            s_before.spec_codel(coordinate).lemma_with_index(b);
            lemma_flat_in_range(self.spec_width(), self.spec_height(), coordinate);
            assert(self.spec_codel(coordinate).spec_block_index() == Some(b));
        }
        let mut west_coord = coordinate;
        let mut pushed_west = false;
        let (xl, y) = coordinate;
        while !self.is_westmost(west_coord)
            invariant
                self.building(*block, colour, seed),
                block.spec_index() == b,
                bi == b,
                b == old(block).spec_index(),
                s0 == old(self).spec_codels(),
                old(self).fills(coordinate, colour, b),
                self.spec_dimensions() == old(self).spec_dimensions(),
                self.spec_blocks() == old(self).spec_blocks(),
                grows(s0, self.spec_codels(), b),
                west_coord.1 == y,
                west_coord.0 <= xl,
                (xl, y) == coordinate,
                old(self).in_bounds(coordinate),
                pushed_west == (west_coord.0 < xl),
                forall|x: usize| west_coord.0 <= x <= xl ==> (#[trigger] self.spec_codel((x, y))).spec_block_index() == Some(b),
                self.linked(b, seed),
            decreases west_coord.0,
        {
            let ghost pre = *self;
            match self.west(west_coord) {
                Some(coord) => {
                    let ghost prev = west_coord;
                    west_coord = coord;
                    if !self.fills_at(west_coord, colour, bi) {
                        let edge = match self.east(west_coord) {
                            Some(e) => e,
                            None => west_coord,
                        };
                        return (Some(edge), pushed_west);
                    }
                    pushed_west = true;
                    let ghost before = self.spec_codels();
                    proof {
                        lemma_flat_in_range(self.spec_width(), self.spec_height(), prev);
                        assert(self.spec_codel(prev).spec_block_index() == Some(b));
                        assert(self.cells(b).insert(seed).contains(prev));
                        assert(adjacent(west_coord, prev));
                    }
                    self.add_coord_to_block(block, Ghost(colour), Ghost(seed), west_coord);
                    proof {
                        lemma_grows_trans(s0, before, self.spec_codels(), b);
                        let h = self.spec_height();
                        assert forall|x: usize| west_coord.0 <= x <= xl implies
                            (#[trigger] self.spec_codel((x, y))).spec_block_index() == Some(b) by {
                            lemma_flat_in_range(self.spec_width(), h, (x, y));
                            if x != west_coord.0 {
                                assert(pre.spec_codel((x, y)).spec_block_index() == Some(b));
                                assert(before[flat(h, (x, y))].spec_block_index() == Some(b));
                                assert(self.spec_codels()[flat(h, (x, y))] == before[flat(h, (x, y))]);
                            }
                        }
                    }
                },
                None => {},
            }
        }
        (Some(west_coord), pushed_west)
    }

    /// From `coordinate`, gives the run of codels of the block's colour that
    /// reaches east from it to the block, and returns the run's eastmost codel;
    /// `None`, with nothing changed, when the codel at `coordinate` cannot join
    /// the block.
    fn find_colour_east_edge(
        &mut self,
        block: &mut CodelBlock,
        Ghost(seed): Ghost<Coordinate>,
        coordinate: Coordinate,
        colour: PietColour,
    ) -> (r: Option<Coordinate>)
        requires
            old(self).building(*old(block), colour, seed),
            old(self).in_bounds(coordinate),
            old(self).linked(old(block).spec_index(), seed),
            old(self).spec_codel(coordinate).spec_no_index() ==> old(self).anchored(old(block).spec_index(), seed, coordinate),
        ensures
            final(self).building(*final(block), colour, seed),
            final(self).linked(old(block).spec_index(), seed),
            final(block).spec_index() == old(block).spec_index(),
            final(self).spec_dimensions() == old(self).spec_dimensions(),
            final(self).spec_blocks() == old(self).spec_blocks(),
            grows(old(self).spec_codels(), final(self).spec_codels(), old(block).spec_index()),
            r is None <==> !old(self).fills(coordinate, colour, old(block).spec_index()),
            r is None ==> final(self).spec_codels() == old(self).spec_codels(),
            r matches Some(e) ==> {
                &&& e.1 == coordinate.1
                &&& coordinate.0 <= e.0 < old(self).spec_width()
                &&& forall|x: usize| coordinate.0 <= x <= e.0 ==>
                    (#[trigger] final(self).spec_codel((x, coordinate.1))).spec_block_index() == Some(old(block).spec_index())
                &&& (e.0 + 1 == old(self).spec_width()
                    || !old(self).fills(((e.0 + 1) as usize, coordinate.1), colour, old(block).spec_index()))
            },
    {
        let ghost b = block.spec_index();
        let ghost s0 = self.spec_codels();
        let bi = block.index();
        if !self.fills_at(coordinate, colour, bi) {
            return None;
        }
        let ghost s_before = *self;
        self.add_coord_to_block(block, Ghost(colour), Ghost(seed), coordinate);
        proof {
            s_before.spec_codel(coordinate).lemma_with_index(b);
            lemma_flat_in_range(self.spec_width(), self.spec_height(), coordinate);
            assert(self.spec_codel(coordinate).spec_block_index() == Some(b));
        }
        let mut east_coord = coordinate;
        let (xw, y) = coordinate;
        while !self.is_eastmost(east_coord)
            invariant
                self.building(*block, colour, seed),
                block.spec_index() == b,
                bi == b,
                b == old(block).spec_index(),
                s0 == old(self).spec_codels(),
                old(self).fills(coordinate, colour, b),
                self.spec_dimensions() == old(self).spec_dimensions(),
                self.spec_blocks() == old(self).spec_blocks(),
                grows(s0, self.spec_codels(), b),
                east_coord.1 == y,
                xw <= east_coord.0 < self.spec_width(),
                (xw, y) == coordinate,
                old(self).in_bounds(coordinate),
                forall|x: usize| xw <= x <= east_coord.0 ==> (#[trigger] self.spec_codel((x, y))).spec_block_index() == Some(b),
                self.linked(b, seed),
            decreases self.spec_width() - east_coord.0,
        {
            let ghost pre = *self;
            match self.east(east_coord) {
                Some(coord) => {
                    let ghost prev = east_coord;
                    east_coord = coord;
                    if !self.fills_at(east_coord, colour, bi) {
                        let edge = match self.west(east_coord) {
                            Some(w) => w,
                            None => east_coord,
                        };
                        proof {
                            lemma_grows_fills(*old(self), *self, b, colour);
                            assert(old(self).in_bounds(east_coord));
                            assert(edge == prev);
                        }
                        return Some(edge);
                    }
                    let ghost before = self.spec_codels();
                    proof {
                        lemma_flat_in_range(self.spec_width(), self.spec_height(), prev);
                        assert(self.spec_codel(prev).spec_block_index() == Some(b));
                        assert(self.cells(b).insert(seed).contains(prev));
                        assert(adjacent(east_coord, prev));
                    }
                    self.add_coord_to_block(block, Ghost(colour), Ghost(seed), east_coord);
                    proof {
                        lemma_grows_trans(s0, before, self.spec_codels(), b);
                        let h = self.spec_height();
                        assert forall|x: usize| xw <= x <= east_coord.0 implies
                            (#[trigger] self.spec_codel((x, y))).spec_block_index() == Some(b) by {
                            lemma_flat_in_range(self.spec_width(), h, (x, y));
                            if x != east_coord.0 {
                                assert(pre.spec_codel((x, y)).spec_block_index() == Some(b));
                                assert(before[flat(h, (x, y))].spec_block_index() == Some(b));
                                assert(self.spec_codels()[flat(h, (x, y))] == before[flat(h, (x, y))]);
                            }
                        }
                    }
                },
                None => {},
            }
        }
        Some(east_coord)
    }

    fn is_west_of(west: Coordinate, east: Coordinate) -> (r: bool)
        ensures
            r == (west.0 <= east.0),
    {
        let (west_x, _) = west;
        let (east_x, _) = east;
        west_x <= east_x
    }

    /// Scanning row `y` from `west_seed` towards `east_boundary`, gives to the
    /// block every run of its colour that starts at or west of the boundary,
    /// and returns those runs, west to east, and whether the last of them
    /// reaches east of the boundary.
    fn find_disjoint_intervals(
        &mut self,
        block: &mut CodelBlock,
        Ghost(seed): Ghost<Coordinate>,
        colour: PietColour,
        east_boundary: Coordinate,
        west_seed: Coordinate,
    ) -> (r: (Vec<(Coordinate, Coordinate)>, bool))
        requires
            old(self).building(*old(block), colour, seed),
            west_seed.1 == east_boundary.1,
            west_seed.0 <= east_boundary.0,
            old(self).in_bounds(east_boundary),
            old(self).linked(old(block).spec_index(), seed),
            forall|x: usize| west_seed.0 <= x <= east_boundary.0
                && (#[trigger] old(self).spec_codel((x, east_boundary.1))).spec_no_index()
                ==> old(self).anchored(old(block).spec_index(), seed, (x, east_boundary.1)),
        ensures
            final(self).building(*final(block), colour, seed),
            final(self).linked(old(block).spec_index(), seed),
            final(block).spec_index() == old(block).spec_index(),
            final(self).spec_dimensions() == old(self).spec_dimensions(),
            final(self).spec_blocks() == old(self).spec_blocks(),
            grows(old(self).spec_codels(), final(self).spec_codels(), old(block).spec_index()),
            r.0@.len() <= old(self).spec_width(),
            forall|i: int| 0 <= i < r.0@.len() ==> {
                let iv = #[trigger] r.0@[i];
                &&& iv.0.1 == east_boundary.1
                &&& iv.1.1 == east_boundary.1
                &&& west_seed.0 <= iv.0.0 <= iv.1.0 < old(self).spec_width()
                &&& iv.0.0 <= east_boundary.0
                &&& forall|x: usize| iv.0.0 <= x <= iv.1.0 ==>
                    (#[trigger] final(self).spec_codel((x, east_boundary.1))).spec_block_index() == Some(old(block).spec_index())
            },
            r.1 == (r.0@.len() > 0 && r.0@.last().1.0 > east_boundary.0),
            forall|i: int| 0 <= i < r.0@.len() ==> {
                let iv = #[trigger] r.0@[i];
                &&& forall|x: usize| iv.0.0 <= x <= iv.1.0 ==>
                    #[trigger] old(self).fills((x, east_boundary.1), colour, old(block).spec_index())
                &&& (iv.1.0 + 1 == old(self).spec_width()
                    || !old(self).fills(((iv.1.0 + 1) as usize, east_boundary.1), colour, old(block).spec_index()))
                &&& (iv.0.0 == west_seed.0
                    || !old(self).fills(((iv.0.0 - 1) as usize, east_boundary.1), colour, old(block).spec_index()))
            },
            forall|i: int, j: int| 0 <= i < j < r.0@.len() ==> (#[trigger] r.0@[i]).1.0 < (#[trigger] r.0@[j]).0.0,
            forall|x: usize| west_seed.0 <= x <= east_boundary.0
                && #[trigger] old(self).fills((x, east_boundary.1), colour, old(block).spec_index())
                ==> exists|i: int| 0 <= i < r.0@.len() && (#[trigger] r.0@[i]).0.0 <= x <= r.0@[i].1.0,
    {
        let ghost b = block.spec_index();
        let ghost s0 = self.spec_codels();
        let ghost w = self.spec_width();
        let (_, y) = east_boundary;
        let mut went_east_of_boundary = false;
        let mut intervals: Vec<(Coordinate, Coordinate)> = Vec::new();
        let mut west_edge = west_seed;
        while Self::is_west_of(west_edge, east_boundary)
            invariant
                self.building(*block, colour, seed),
                block.spec_index() == b,
                b == old(block).spec_index(),
                s0 == old(self).spec_codels(),
                w == old(self).spec_width(),
                self.spec_dimensions() == old(self).spec_dimensions(),
                self.spec_blocks() == old(self).spec_blocks(),
                grows(s0, self.spec_codels(), b),
                west_seed.1 == y,
                east_boundary.1 == y,
                y < self.spec_height(),
                west_seed.0 <= west_edge.0 < w,
                west_seed.0 <= east_boundary.0 < w,
                west_edge.1 == y,
                intervals@.len() <= west_edge.0 - west_seed.0,
                forall|i: int| 0 <= i < intervals@.len() ==> {
                    let iv = #[trigger] intervals@[i];
                    &&& iv.0.1 == y
                    &&& iv.1.1 == y
                    &&& west_seed.0 <= iv.0.0 <= iv.1.0 < west_edge.0
                    &&& iv.0.0 <= east_boundary.0
                    &&& forall|x: usize| iv.0.0 <= x <= iv.1.0 ==>
                        (#[trigger] self.spec_codel((x, y))).spec_block_index() == Some(b)
                },
                went_east_of_boundary == (intervals@.len() > 0 && intervals@.last().1.0 > east_boundary.0),
                self.linked(b, seed),
                forall|x: usize| west_edge.0 <= x <= east_boundary.0
                    && (#[trigger] self.spec_codel((x, y))).spec_no_index()
                    ==> self.anchored(b, seed, (x, y)),
                forall|i: int| 0 <= i < intervals@.len() ==> {
                    let iv = #[trigger] intervals@[i];
                    &&& forall|x: usize| iv.0.0 <= x <= iv.1.0 ==> #[trigger] old(self).fills((x, y), colour, b)
                    &&& (iv.1.0 + 1 == w || !old(self).fills(((iv.1.0 + 1) as usize, y), colour, b))
                    &&& (iv.0.0 == west_seed.0 || !old(self).fills(((iv.0.0 - 1) as usize, y), colour, b))
                },
                forall|i: int, j: int| 0 <= i < j < intervals@.len() ==> (#[trigger] intervals@[i]).1.0 < (#[trigger] intervals@[j]).0.0,
                forall|x: usize| west_seed.0 <= x < west_edge.0 && #[trigger] old(self).fills((x, y), colour, b)
                    ==> exists|i: int| 0 <= i < intervals@.len() && (#[trigger] intervals@[i]).0.0 <= x <= intervals@[i].1.0,
                west_edge.0 > west_seed.0 ==> (!old(self).fills(((west_edge.0 - 1) as usize, y), colour, b)
                    || !old(self).fills(west_edge, colour, b)),
            decreases w - west_edge.0,
        {
            let ghost before = self.spec_codels();
            let ghost pre = *self;
            proof {
                assert(self.spec_codel((west_edge.0, y)) == self.spec_codel(west_edge));
            }
            match self.find_colour_east_edge(block, Ghost(seed), west_edge, colour) {
                Some(east_edge) => {
                    proof {
                        lemma_grows_monotone(pre, *self, b, seed);
                        assert forall|x: usize| east_edge.0 < x <= east_boundary.0
                            && (#[trigger] self.spec_codel((x, y))).spec_no_index()
                            implies self.anchored(b, seed, (x, y)) by {
                            assert(pre.spec_codel((x, y)).spec_no_index());
                            assert(pre.anchored(b, seed, (x, y)));
                        }
                        lemma_grows_trans(s0, before, self.spec_codels(), b);
                        let h = self.spec_height();
                        assert forall|i: int| 0 <= i < intervals@.len() implies
                            forall|x: usize| (#[trigger] intervals@[i]).0.0 <= x <= intervals@[i].1.0 ==>
                                (#[trigger] self.spec_codel((x, y))).spec_block_index() == Some(b) by {
                            let iv = intervals@[i];
                            assert forall|x: usize| iv.0.0 <= x <= iv.1.0 implies
                                (#[trigger] self.spec_codel((x, y))).spec_block_index() == Some(b) by {
                                lemma_flat_in_range(w, h, (x, y));
                                assert(pre.spec_codel((x, y)).spec_block_index() == Some(b));
                                assert(self.spec_codels()[flat(h, (x, y))] == before[flat(h, (x, y))]);
                            }
                        }
                    }
                    went_east_of_boundary = !Self::is_west_of(east_edge, east_boundary);
                    let ghost old_intervals = intervals@;
                    intervals.push((west_edge, east_edge));
                    proof {
                        assert forall|i: int| 0 <= i < intervals@.len() implies {
                            let iv = #[trigger] intervals@[i];
                            &&& iv.0.1 == y
                            &&& iv.1.1 == y
                            &&& west_seed.0 <= iv.0.0 <= iv.1.0 < w
                            &&& iv.1.0 <= east_edge.0
                            &&& iv.0.0 <= east_boundary.0
                            &&& forall|x: usize| iv.0.0 <= x <= iv.1.0 ==>
                                (#[trigger] self.spec_codel((x, y))).spec_block_index() == Some(b)
                        } by {
                            if i < old_intervals.len() {
                                assert(intervals@[i] == old_intervals[i]);
                            }
                        }
                        let p = west_edge.0;
                        let e = east_edge.0;
                        let n = old_intervals.len() as int;
                        lemma_grows_fills(*old(self), pre, b, colour);
                        lemma_grows_fills(*old(self), *self, b, colour);
                        assert(old(self).fills((p, y), colour, b));
                        assert forall|x: usize| p <= x <= e implies #[trigger] old(self).fills((x, y), colour, b) by {
                            assert(self.spec_codel((x, y)).spec_block_index() == Some(b));
                            assert(self.cells(b).contains((x, y)));
                            assert(self.fills((x, y), colour, b));
                            assert(old(self).in_bounds((x, y)));
                        }
                        if e + 1 < w {
                            assert(pre.in_bounds(((e + 1) as usize, y)));
                            assert(!old(self).fills(((e + 1) as usize, y), colour, b));
                        }
                        if p > west_seed.0 {
                            assert(!old(self).fills(((p - 1) as usize, y), colour, b));
                        }
                        assert(intervals@[n] == (west_edge, east_edge));
                        assert forall|i: int| 0 <= i < intervals@.len() implies {
                            let iv = #[trigger] intervals@[i];
                            &&& forall|x: usize| iv.0.0 <= x <= iv.1.0 ==> #[trigger] old(self).fills((x, y), colour, b)
                            &&& (iv.1.0 + 1 == w || !old(self).fills(((iv.1.0 + 1) as usize, y), colour, b))
                            &&& (iv.0.0 == west_seed.0 || !old(self).fills(((iv.0.0 - 1) as usize, y), colour, b))
                        } by {
                            if i < n {
                                assert(intervals@[i] == old_intervals[i]);
                            }
                        }
                        assert forall|i: int, j: int| 0 <= i < j < intervals@.len() implies
                            (#[trigger] intervals@[i]).1.0 < (#[trigger] intervals@[j]).0.0 by {
                            assert(intervals@[i] == old_intervals[i]);
                            if j < n {
                                assert(intervals@[j] == old_intervals[j]);
                            }
                        }
                        assert forall|x: usize| west_seed.0 <= x <= e && #[trigger] old(self).fills((x, y), colour, b)
                            implies exists|i: int| 0 <= i < intervals@.len() && (#[trigger] intervals@[i]).0.0 <= x <= intervals@[i].1.0 by {
                            if x < p {
                                let i = choose|i: int| 0 <= i < old_intervals.len() && (#[trigger] old_intervals[i]).0.0 <= x <= old_intervals[i].1.0;
                                assert(intervals@[i] == old_intervals[i]);
                            } else {
                                assert(intervals@[n].0.0 <= x <= intervals@[n].1.0);
                            }
                        }
                    }
                    match self.east(east_edge) {
                        Some(coord) => west_edge = coord,
                        None => return (intervals, went_east_of_boundary),
                    };
                },
                None => {
                    proof {
                        assert(self.spec_codels() == pre.spec_codels());
                        assert forall|c: Coordinate| #[trigger] self.spec_codel(c) == pre.spec_codel(c) by {}
                        lemma_grows_fills(*old(self), pre, b, colour);
                        assert(old(self).in_bounds(west_edge));
                        assert(!old(self).fills(west_edge, colour, b));
                        assert(west_edge == (west_edge.0, y));
                    }
                    if west_edge.0 == east_boundary.0 && west_edge.1 == east_boundary.1 {
                        return (intervals, went_east_of_boundary);
                    }
                    match self.east(west_edge) {
                        Some(coord) => west_edge = coord,
                        None => return (intervals, went_east_of_boundary),
                    }
                },
            };
        }
        (intervals, went_east_of_boundary)
    }

    /// Builds a block from every coloured codel that no block holds yet,
    /// column by column, numbering the blocks in that order.
    pub(super) fn create_blocks(&mut self)
        requires
            old(self).shape_ok(),
            old(self).spec_blocks().len() == 0,
            forall|i: int| 0 <= i < old(self).spec_codels().len() ==> (#[trigger] old(self).spec_codels()[i]).spec_block_index() is None,
        ensures
            final(self).wf(),
            final(self).blocks_connected(),
            final(self).blocks_maximal(),
            final(self).numbered_in_order(),
            final(self).spec_dimensions() == old(self).spec_dimensions(),
            final(self).spec_codels().len() == old(self).spec_codels().len(),
            forall|i: int| 0 <= i < old(self).spec_codels().len() ==>
                (#[trigger] final(self).spec_codels()[i]).spec_colour_name() == old(self).spec_codels()[i].spec_colour_name(),
    {
        let ghost s0 = self.spec_codels();
        let ghost w = self.spec_width();
        let ghost h = self.spec_height();
        let width = self.width;
        let height = self.height;
        let n = self.codels.len();
        let mut marks: Vec<usize> = Vec::new();
        while marks.len() < n
            invariant
                marks@.len() <= n,
                forall|i: int| 0 <= i < marks@.len() ==> #[trigger] marks@[i] == 0,
            decreases n - marks.len(),
        {
            marks.push(0);
        }
        let mut index: usize = 0;
        let mut x: usize = 0;
        while x < width
            invariant
                width == w,
                height == h,
                w == self.spec_width(),
                h == self.spec_height(),
                self.spec_dimensions() == old(self).spec_dimensions(),
                self.shape_ok(),
                s0 == old(self).spec_codels(),
                self.spec_codels().len() == s0.len(),
                index == self.spec_blocks().len(),
                self.indices_below(index as int),
                forall|b2: int| 0 <= b2 < self.spec_blocks().len() ==> #[trigger] self.block_ok(b2),
                forall|i: int| 0 <= i < s0.len() ==> (#[trigger] self.spec_codels()[i]).spec_colour_name() == s0[i].spec_colour_name(),
                0 <= x <= w,
                index <= x * h,
                forall|i: int| 0 <= i < x * h ==> !(#[trigger] self.spec_codels()[i]).spec_no_index(),
                self.blocks_connected(),
                self.closed_below(index as int),
                self.numbered_in_order(),
                marks@.len() == s0.len(),
                forall|i: int| 0 <= i < marks@.len() ==> #[trigger] marks@[i] <= index,
            decreases w - x,
        {
            let mut y: usize = 0;
            while y < height
                invariant
                    width == w,
                    height == h,
                    w == self.spec_width(),
                    h == self.spec_height(),
                    self.spec_dimensions() == old(self).spec_dimensions(),
                    self.shape_ok(),
                    s0 == old(self).spec_codels(),
                    self.spec_codels().len() == s0.len(),
                    index == self.spec_blocks().len(),
                    self.indices_below(index as int),
                    forall|b2: int| 0 <= b2 < self.spec_blocks().len() ==> #[trigger] self.block_ok(b2),
                    forall|i: int| 0 <= i < s0.len() ==> (#[trigger] self.spec_codels()[i]).spec_colour_name() == s0[i].spec_colour_name(),
                    0 <= x < w,
                    0 <= y <= h,
                    index <= x * h + y,
                    forall|i: int| 0 <= i < x * h + y ==> !(#[trigger] self.spec_codels()[i]).spec_no_index(),
                    self.blocks_connected(),
                    self.closed_below(index as int),
                    self.numbered_in_order(),
                    marks@.len() == s0.len(),
                    forall|i: int| 0 <= i < marks@.len() ==> #[trigger] marks@[i] <= index,
                decreases h - y,
            {
                let coordinate = (x, y);
                proof {
                    lemma_flat_in_range(w, h, coordinate);
                }
                if self.get_codel(coordinate).no_index() {
                    let ghost before = *self;
                    let mut block = CodelBlock::new(index, coordinate);
                    proof {
                        let cs = self.spec_codels();
                        assert forall|i: int| 0 <= i < cs.len() implies (#[trigger] cs[i]).spec_block_index() != Some(index) by {
                            assert(self.indices_below(index as int));
                            if let Some(bb) = cs[i].spec_block_index() {
                                assert(bb < index);
                            }
                        }
                        lemma_count_none(cs, index);
                        assert forall|c: Coordinate| !(#[trigger] self.cells(index).contains(c)) by {
                            if on_grid(w, h, c) {
                                lemma_flat_in_range(w, h, c);
                            }
                        }
                        assert(self.cells(index) =~= Set::empty());
                        lemma_fresh_extremes(block, coordinate);
                        assert(self.cells(index).insert(coordinate) =~= Set::empty().insert(coordinate));
                        let c = self.spec_codel(coordinate);
                        assert(crate::canvas::consistent(c));
                        assert(forall|b2: int| 0 <= b2 < self.spec_blocks().len() ==> #[trigger] self.block_ok(b2));
                        assert(self.building(block, c.spec_colour_name(), coordinate));
                        assert(self.linked(index, coordinate));
                    }
                    proof {
                        assert(self.codels@.len() == self.codels.len());
                        assert(index <= flat(h, coordinate) < self.codels@.len());
                    }
                    self.build_block(&mut block, coordinate, &mut marks);
                    let ghost after = *self;
                    proof {
                        lemma_grows_monotone(before, after, index, coordinate);
                        lemma_linked_connected(after, index, coordinate);
                        lemma_grows_keeps(before.spec_codels(), self.spec_codels(), index);
                        assert(self.cells(index).insert(coordinate) =~= self.cells(index));
                        assert(is_extreme(self.cells(index), DP::North, CC::Left, block.spec_coord(DP::North, CC::Left)));
                    }
                    self.blocks.push(block);
                    proof {
                        assert(self.spec_codels() == after.spec_codels());
                        assert forall|c: Coordinate, d: Coordinate| #[trigger] self.kin(c, d)
                            && (self.spec_codel(c).spec_block_index() matches Some(j) && j < index + 1)
                            implies self.spec_codel(d).spec_block_index() == self.spec_codel(c).spec_block_index() by {
                            assert(after.kin(c, d));
                        }
                        assert forall|b2: int| 0 <= b2 < self.spec_blocks().len() implies #[trigger] self.has_first(b2 as usize) by {
                            if b2 < index {
                                assert(before.has_first(b2 as usize));
                                let c2 = choose|c2: Coordinate| #[trigger] before.first_of_block(b2 as usize, c2);
                                lemma_grows_first(before, after, index, b2 as usize, c2);
                                assert(self.cells(b2 as usize) =~= after.cells(b2 as usize));
                                assert forall|e: Coordinate| self.in_bounds(e) && flat(h, e) < flat(h, c2)
                                    && (#[trigger] self.spec_codel(e)) is Colour
                                    implies (self.spec_codel(e).spec_block_index() matches Some(j) && j < b2) by {
                                    assert(after.spec_codel(e) == self.spec_codel(e));
                                }
                                assert(self.first_of_block(b2 as usize, c2));
                            } else {
                                assert forall|e: Coordinate| self.in_bounds(e) && flat(h, e) < flat(h, coordinate)
                                    && (#[trigger] self.spec_codel(e)) is Colour
                                    implies (self.spec_codel(e).spec_block_index() matches Some(j) && j < index) by {
                                    lemma_flat_in_range(w, h, e);
                                    before.spec_codels()[flat(h, e)].lemma_with_index(index);
                                    assert(!before.spec_codels()[flat(h, e)].spec_no_index());
                                }
                                assert(self.cells(index) =~= after.cells(index));
                                assert(self.first_of_block(index, coordinate));
                            }
                        }
                        assert forall|c: Coordinate| #[trigger] self.cells(index).contains(c) <==> after.cells(index).contains(c) by {}
                        assert forall|b2: int| 0 <= b2 < self.spec_blocks().len() implies #[trigger] self.block_ok(b2) by {
                            if b2 < index {
                                assert(after.block_ok(b2));
                                assert(self.spec_blocks()[b2] == after.spec_blocks()[b2]);
                                assert(self.cells(b2 as usize) =~= after.cells(b2 as usize));
                            } else {
                                assert(self.spec_blocks()[b2] == block);
                                assert(self.cells(index) =~= after.cells(index));
                            }
                        }
                        assert forall|b2: int| 0 <= b2 < self.spec_blocks().len() implies #[trigger] self.block_connected(b2 as usize) by {
                            if b2 < index {
                                assert(before.block_connected(b2 as usize));
                                assert(after.cells(b2 as usize) == before.cells(b2 as usize));
                                assert(self.cells(b2 as usize) =~= after.cells(b2 as usize));
                            } else {
                                assert(self.cells(index) =~= after.cells(index));
                            }
                        }
                    }
                    proof {
                        assert(self.codels@.len() == self.codels.len());
                        assert(index <= flat(h, coordinate) < self.codels@.len());
                    }
                    index = index + 1;
                    proof {
                        let ci = flat(h, coordinate);
                        assert(self.spec_codels()[ci].spec_block_index() == Some((index - 1) as usize));
                        assert forall|i: int| 0 <= i < x * h + y + 1 implies !(#[trigger] self.spec_codels()[i]).spec_no_index() by {
                            if i < x * h + y {
                                assert(!before.spec_codels()[i].spec_no_index());
                            }
                        }
                    }
                }
                y = y + 1;
            }
            proof {
                assert((x + 1) * h == x * h + h) by (nonlinear_arith);
            }
            x = x + 1;
        }
        proof {
            assert(x * h == s0.len());
        }
    }

    /// Builds block `block` from the free coloured codel `seed`, where every
    /// block before it is closed: the scan-line fill, then a search that
    /// gives the block every codel of the seed's colour joined to it. The
    /// block ends as the whole region of the seed's colour that holds the
    /// seed: its codels are joined to the seed, and it holds every neighbour
    /// of their colour.
    fn build_block(&mut self, block: &mut CodelBlock, seed: Coordinate, marks: &mut Vec<usize>)
        requires
            old(self).building(*old(block), old(self).spec_codel(seed).spec_colour_name(), seed),
            old(self).spec_codel(seed).spec_no_index(),
            old(self).linked(old(block).spec_index(), seed),
            old(self).closed_below(old(block).spec_index() as int),
            old(block).spec_index() < old(self).spec_codels().len(),
            old(marks)@.len() == old(self).spec_codels().len(),
            forall|i: int| 0 <= i < old(marks)@.len() ==> #[trigger] old(marks)@[i] <= old(block).spec_index(),
        ensures
            final(self).building(*final(block), old(self).spec_codel(seed).spec_colour_name(), seed),
            final(self).linked(old(block).spec_index(), seed),
            final(block).spec_index() == old(block).spec_index(),
            final(self).spec_dimensions() == old(self).spec_dimensions(),
            final(self).spec_blocks() == old(self).spec_blocks(),
            grows(old(self).spec_codels(), final(self).spec_codels(), old(block).spec_index()),
            final(self).cells(old(block).spec_index()).contains(seed),
            final(self).closed_below(old(block).spec_index() + 1),
            final(self).cells(old(block).spec_index()) == final(self).region(old(self).spec_codel(seed).spec_colour_name(), seed),
            final(block).spec_size() == final(self).region(old(self).spec_codel(seed).spec_colour_name(), seed).len(),
            final(marks)@.len() == old(marks)@.len(),
            forall|i: int| 0 <= i < final(marks)@.len() ==> #[trigger] final(marks)@[i] <= old(block).spec_index() + 1,
    {
        let ghost before = *self;
        self.scan_block(block, seed);
        proof {
            lemma_grows_closed(before, *self, block.spec_index(), block.spec_index() as int);
        }
        let colour = self.get_codel(seed).colour_name();
        let ghost mid = self.spec_codels();
        self.complete_block(block, seed, colour, marks);
        proof {
            lemma_grows_trans(before.spec_codels(), mid, self.spec_codels(), block.spec_index());
            lemma_block_region(*self, block.spec_index(), colour, seed);
            lemma_count_cells(self.spec_codels(), self.spec_width(), self.spec_height(), block.spec_index());
        }
    }

    /// The neighbours of `c` on the canvas.
    fn neighbours(&self, c: Coordinate) -> (n: Vec<Coordinate>)
        requires
            self.in_bounds(c),
        ensures
            forall|k: int| 0 <= k < n@.len() ==> self.in_bounds(#[trigger] n@[k]) && adjacent(c, n@[k]),
            forall|d: Coordinate| self.in_bounds(d) && adjacent(c, d) ==> n@.contains(d),
    {
        let (x, y) = c;
        let mut n: Vec<Coordinate> = Vec::new();
        if y > 0 {
            n.push((x, y - 1));
        }
        if x + 1 < self.width {
            n.push((x + 1, y));
        }
        if y + 1 < self.height {
            n.push((x, y + 1));
        }
        if x > 0 {
            n.push((x - 1, y));
        }
        proof {
            let i0: int = if y > 0 { 1 } else { 0 };
            let i1: int = i0 + if x + 1 < self.width { 1int } else { 0int };
            let i2: int = i1 + if y + 1 < self.height { 1int } else { 0int };
            assert forall|d: Coordinate| self.in_bounds(d) && adjacent(c, d) implies n@.contains(d) by {
                if d.0 == x && d.1 + 1 == y {
                    assert(n@[0] == d);
                } else if d.0 == x + 1 {
                    assert(n@[i0] == d);
                } else if d.0 == x {
                    assert(n@[i1] == d);
                } else {
                    assert(n@[i2] == d);
                }
            }
        }
        n
    }

    /// Gives block `block`, which holds the seed and whose codels are joined
    /// to it, every codel of its colour joined to the seed: a search from the
    /// seed that marks, in `marks`, each codel that it reaches with the
    /// block's index plus one.
    fn complete_block(&mut self, block: &mut CodelBlock, seed: Coordinate, colour: PietColour, marks: &mut Vec<usize>)
        requires
            old(self).building(*old(block), colour, seed),
            old(self).linked(old(block).spec_index(), seed),
            old(self).cells(old(block).spec_index()).contains(seed),
            old(self).closed_below(old(block).spec_index() as int),
            old(block).spec_index() < old(self).spec_codels().len(),
            old(marks)@.len() == old(self).spec_codels().len(),
            forall|i: int| 0 <= i < old(marks)@.len() ==> #[trigger] old(marks)@[i] <= old(block).spec_index(),
        ensures
            final(self).building(*final(block), colour, seed),
            final(self).linked(old(block).spec_index(), seed),
            final(block).spec_index() == old(block).spec_index(),
            final(self).spec_dimensions() == old(self).spec_dimensions(),
            final(self).spec_blocks() == old(self).spec_blocks(),
            grows(old(self).spec_codels(), final(self).spec_codels(), old(block).spec_index()),
            final(self).cells(old(block).spec_index()).contains(seed),
            final(self).closed_below(old(block).spec_index() + 1),
            final(marks)@.len() == old(marks)@.len(),
            forall|i: int| 0 <= i < final(marks)@.len() ==> #[trigger] final(marks)@[i] <= old(block).spec_index() + 1,
    {
        let ghost b = block.spec_index();
        let ghost s0 = self.spec_codels();
        let ghost w = self.spec_width();
        let ghost h = self.spec_height();
        let height = self.height;
        proof {
            assert(self.codels@.len() == self.codels.len());
        }
        let mark: usize = block.index() + 1;
        let (sx, sy) = seed;
        proof {
            lemma_flat_in_range(w, h, seed);
            lemma_mark(marks@, w, h, seed, mark);
            assert(sx * height + sy < self.codels.len());
        }
        let si: usize = sx * height + sy;
        let ghost m0 = marks@;
        marks.set(si, mark);
        let mut todo: Vec<Coordinate> = Vec::new();
        todo.push(seed);
        let ghost mut done: Set<Coordinate> = Set::empty();
        proof {
            assert(marks@ == m0.update(flat(h, seed), mark));
            assert forall|c: Coordinate| self.in_bounds(c) && #[trigger] marked(marks@, h, c, mark)
                implies self.cells(b).contains(c) && (done.contains(c) || todo@.contains(c)) by {
                lemma_flat_in_range(w, h, c);
                assert(m0[flat(h, c)] <= b);
                assert(c == seed);
                assert(todo@[0] == seed);
            }
        }
        while todo.len() > 0
            invariant
                self.building(*block, colour, seed),
                self.linked(b, seed),
                block.spec_index() == b,
                b < s0.len(),
                mark == b + 1,
                height == h,
                w == self.spec_width(),
                h == self.spec_height(),
                self.spec_dimensions() == old(self).spec_dimensions(),
                self.spec_blocks() == old(self).spec_blocks(),
                s0 == old(self).spec_codels(),
                grows(s0, self.spec_codels(), b),
                self.closed_below(b as int),
                self.in_bounds(seed),
                marks@.len() == s0.len(),
                forall|i: int| 0 <= i < marks@.len() ==> #[trigger] marks@[i] <= mark,
                marked(marks@, h, seed, mark),
                forall|c: Coordinate| self.in_bounds(c) && #[trigger] marked(marks@, h, c, mark)
                    ==> self.cells(b).contains(c) && (done.contains(c) || todo@.contains(c)),
                forall|k: int| 0 <= k < todo@.len() ==> self.in_bounds(#[trigger] todo@[k]) && marked(marks@, h, todo@[k], mark),
                forall|c: Coordinate| #[trigger] done.contains(c) ==> self.in_bounds(c) && marked(marks@, h, c, mark),
                forall|c: Coordinate, d: Coordinate| done.contains(c) && #[trigger] adjacent(c, d) && self.in_bounds(d)
                    && self.spec_codel(d).spec_colour_name() == colour ==> marked(marks@, h, d, mark),
            decreases count_other(marks@, mark), todo@.len(),
        {
            let ghost tt = todo@;
            let c = match todo.pop() {
                Some(c) => c,
                None => seed,
            };
            let ghost t0 = todo@;
            proof {
                assert(tt == t0.push(c));
                assert(c == tt[tt.len() - 1]);
                assert forall|c2: Coordinate| self.in_bounds(c2) && #[trigger] marked(marks@, h, c2, mark)
                    implies self.cells(b).contains(c2) && (done.contains(c2) || todo@.contains(c2) || c2 == c) by {
                    if tt.contains(c2) && c2 != c {
                        let k2 = choose|k2: int| 0 <= k2 < tt.len() && tt[k2] == c2;
                        assert(k2 < t0.len());
                        assert(t0[k2] == c2);
                    }
                }
            }
            let ghost count0 = count_other(marks@, mark);
            proof {
                assert(self.cells(b).contains(c));
            }
            let nb = self.neighbours(c);
            let mut k: usize = 0;
            let ghost mut pushed: int = 0;
            while k < nb.len()
                invariant
                    self.building(*block, colour, seed),
                    self.linked(b, seed),
                    block.spec_index() == b,
                    b < s0.len(),
                    mark == b + 1,
                    height == h,
                    w == self.spec_width(),
                    h == self.spec_height(),
                    self.spec_dimensions() == old(self).spec_dimensions(),
                    self.spec_blocks() == old(self).spec_blocks(),
                    s0 == old(self).spec_codels(),
                    grows(s0, self.spec_codels(), b),
                    self.closed_below(b as int),
                    self.in_bounds(seed),
                    marks@.len() == s0.len(),
                    forall|i: int| 0 <= i < marks@.len() ==> #[trigger] marks@[i] <= mark,
                    marked(marks@, h, seed, mark),
                    self.in_bounds(c),
                    marked(marks@, h, c, mark),
                    self.cells(b).contains(c),
                    forall|k2: int| 0 <= k2 < nb@.len() ==> self.in_bounds(#[trigger] nb@[k2]) && adjacent(c, nb@[k2]),
                    0 <= k <= nb@.len(),
                    forall|j: int| 0 <= j < k ==> marked(marks@, h, #[trigger] nb@[j], mark)
                        || self.spec_codel(nb@[j]).spec_colour_name() != colour,
                    forall|c2: Coordinate| self.in_bounds(c2) && #[trigger] marked(marks@, h, c2, mark)
                        ==> self.cells(b).contains(c2) && (done.contains(c2) || todo@.contains(c2) || c2 == c),
                    forall|k2: int| 0 <= k2 < todo@.len() ==> self.in_bounds(#[trigger] todo@[k2]) && marked(marks@, h, todo@[k2], mark),
                    forall|c2: Coordinate| #[trigger] done.contains(c2) ==> self.in_bounds(c2) && marked(marks@, h, c2, mark),
                    forall|c2: Coordinate, d: Coordinate| done.contains(c2) && #[trigger] adjacent(c2, d) && self.in_bounds(d)
                        && self.spec_codel(d).spec_colour_name() == colour ==> marked(marks@, h, d, mark),
                    pushed >= 0,
                    todo@.len() == t0.len() + pushed,
                    forall|k2: int| 0 <= k2 < t0.len() ==> todo@[k2] == t0[k2],
                    count_other(marks@, mark) + pushed == count0,
                decreases nb@.len() - k,
            {
                let d = nb[k];
                let (dx, dy) = d;
                proof {
                    lemma_flat_in_range(w, h, d);
                }
                proof {
                    assert(self.codels@.len() == self.codels.len());
                    assert(dx * height + dy < self.codels.len());
                }
                let di: usize = dx * height + dy;
                if marks[di] != mark && self.is_colour(d, colour) {
                    let ghost pre = *self;
                    let ghost pre_marks = marks@;
                    let ghost pre_todo = todo@;
                    proof {
                        lemma_mark(marks@, w, h, d, mark);
                        lemma_count_other_update(marks@, di as int, mark);
                        assert(adjacent(d, c));
                        if !self.spec_codel(d).spec_no_index() && self.spec_codel(d).spec_block_index() != Some(b) {
                            lemma_flat_in_range(w, h, c);
                            assert(self.kin(d, c));
                        }
                        assert(self.cells(b).insert(seed).contains(c));
                    }
                    marks.set(di, mark);
                    self.add_coord_to_block(block, Ghost(colour), Ghost(seed), d);
                    todo.push(d);
                    proof {
                        pushed = pushed + 1;
                        lemma_grows_monotone(pre, *self, b, seed);
                        lemma_grows_trans(s0, pre.spec_codels(), self.spec_codels(), b);
                        lemma_grows_closed(pre, *self, b, b as int);
                        assert(self.cells(b).contains(d));
                        assert(marks@ == pre_marks.update(flat(h, d), mark));
                        assert(todo@ == pre_todo.push(d));
                        assert forall|c2: Coordinate| self.in_bounds(c2) && #[trigger] marked(marks@, h, c2, mark)
                            implies self.cells(b).contains(c2) && (done.contains(c2) || todo@.contains(c2) || c2 == c) by {
                            if c2 == d {
                                assert(todo@[todo@.len() - 1] == d);
                            } else {
                                assert(marked(pre_marks, h, c2, mark));
                                assert(pre.cells(b).contains(c2));
                                if pre_todo.contains(c2) {
                                    let k2 = choose|k2: int| 0 <= k2 < pre_todo.len() && pre_todo[k2] == c2;
                                    assert(todo@[k2] == c2);
                                }
                            }
                        }
                        assert forall|c2: Coordinate, d2: Coordinate| done.contains(c2) && #[trigger] adjacent(c2, d2)
                            && self.in_bounds(d2) && self.spec_codel(d2).spec_colour_name() == colour
                            implies marked(marks@, h, d2, mark) by {
                            lemma_flat_in_range(w, h, d2);
                            pre.spec_codels()[flat(h, d2)].lemma_with_index(b);
                            assert(pre.spec_codel(d2).spec_colour_name() == colour);
                            assert(marked(pre_marks, h, d2, mark));
                        }
                        assert forall|j: int| 0 <= j < k + 1 implies marked(marks@, h, #[trigger] nb@[j], mark)
                            || self.spec_codel(nb@[j]).spec_colour_name() != colour by {
                            let e = nb@[j];
                            lemma_flat_in_range(w, h, e);
                            pre.spec_codels()[flat(h, e)].lemma_with_index(b);
                        }
                    }
                } else {
                    proof {
                        assert(marked(marks@, h, d, mark) || self.spec_codel(d).spec_colour_name() != colour);
                    }
                }
                k = k + 1;
            }
            proof {
                assert forall|d: Coordinate| adjacent(c, d) && self.in_bounds(d)
                    && self.spec_codel(d).spec_colour_name() == colour implies marked(marks@, h, d, mark) by {
                    assert(nb@.contains(d));
                    let j = choose|j: int| 0 <= j < nb@.len() && nb@[j] == d;
                    assert(marked(marks@, h, nb@[j], mark) || self.spec_codel(nb@[j]).spec_colour_name() != colour);
                }
                done = done.insert(c);
            }
        }
        proof {
            let t = self.cells(b).insert(seed);
            let sm = Set::new(|c: Coordinate| self.in_bounds(c) && marked(marks@, h, c, mark));
            assert forall|c: Coordinate, d: Coordinate| sm.contains(c) && #[trigger] adjacent(c, d) && t.contains(d)
                implies sm.contains(d) by {
                assert(done.contains(c));
            }
            assert forall|c: Coordinate, d: Coordinate| #[trigger] self.kin(c, d)
                && (self.spec_codel(c).spec_block_index() matches Some(j) && j < b + 1)
                implies self.spec_codel(d).spec_block_index() == self.spec_codel(c).spec_block_index() by {
                if self.spec_codel(c).spec_block_index() == Some(b) {
                    assert(self.cells(b).contains(c));
                    assert(joined(t, c, seed));
                    lemma_joined_closed(t, sm, c, seed);
                    assert(done.contains(c));
                    assert(marked(marks@, h, d, mark));
                    assert(self.cells(b).contains(d));
                }
            }
        }
    }

    /// Gives to block `block`, from the free coloured codel `seed`, every
    /// codel of the seed's colour that the scan-line fill reaches.
    fn scan_block(&mut self, block: &mut CodelBlock, seed: Coordinate)
        requires
            old(self).building(*old(block), old(self).spec_codel(seed).spec_colour_name(), seed),
            old(self).spec_codel(seed).spec_no_index(),
            old(self).linked(old(block).spec_index(), seed),
        ensures
            final(self).building(*final(block), old(self).spec_codel(seed).spec_colour_name(), seed),
            final(self).linked(old(block).spec_index(), seed),
            final(block).spec_index() == old(block).spec_index(),
            final(self).spec_dimensions() == old(self).spec_dimensions(),
            final(self).spec_blocks() == old(self).spec_blocks(),
            grows(old(self).spec_codels(), final(self).spec_codels(), old(block).spec_index()),
            final(self).cells(old(block).spec_index()).contains(seed),
    {
        let ghost b = block.spec_index();
        let ghost s0 = self.spec_codels();
        let ghost w = self.spec_width();
        let ghost h = self.spec_height();
        let codel = self.get_codel(seed);
        if !codel.is_any_colour() {
            return;
        }
        let colour = codel.colour_name();
        let bi = block.index();
        let mut stack: Vec<Span> = Vec::new();
        let (x, y) = seed;
        let ghost seed_span: Span = (y, x, x, 1i8);
        stack.push((y, x, x, 1));
        if !self.is_southmost(seed) {
            stack.push((y + 1, x, x, -1));
        }
        proof {
            lemma_flat_in_range(w, h, seed);
            assert forall|i: int| 0 <= i < stack@.len() implies self.span_anchored(b, seed, #[trigger] stack@[i]) by {
                let e = stack@[i];
                assert forall|xx: usize| e.1 <= xx <= e.2 implies ((xx, e.0) == seed
                    || (0 <= e.0 + e.3 && #[trigger] self.cells(b).insert(seed).contains((xx, (e.0 + e.3) as usize)))) by {
                    if i == 1 {
                        assert(((e.0 + e.3) as usize) == seed.1);
                    }
                }
            }
        }
        while stack.len() > 0
            invariant
                self.building(*block, colour, seed),
                block.spec_index() == b,
                bi == b,
                b == old(block).spec_index(),
                s0 == old(self).spec_codels(),
                colour == old(self).spec_codel(seed).spec_colour_name(),
                old(self).spec_codel(seed).spec_no_index(),
                w == self.spec_width(),
                h == self.spec_height(),
                w > 0,
                h > 0,
                self.spec_dimensions() == old(self).spec_dimensions(),
                self.spec_blocks() == old(self).spec_blocks(),
                grows(s0, self.spec_codels(), b),
                0 <= flat(h, seed) < s0.len(),
                seed_span == (seed.1, seed.0, seed.0, 1i8),
                forall|i: int| 0 <= i < stack@.len() ==> span_ok(#[trigger] stack@[i], w, h),
                self.cells(b).contains(seed) || (stack@.len() > 0 && stack@[0] == seed_span),
                self.linked(b, seed),
                forall|i: int| 0 <= i < stack@.len() ==> self.span_anchored(b, seed, #[trigger] stack@[i]),
            decreases count_free(self.spec_codels()), spans_measure(stack@, w, h),
        {
            let ghost stack0 = stack@;
            let ghost free0 = count_free(self.spec_codels());
            let ghost codels0 = self.spec_codels();
            let span = match stack.pop() {
                Some(span) => span,
                None => (0, 0, 0, 1),
            };
            let (y, xl, xr, dy) = span;
            let ghost rest = stack@;
            let ghost r = span_rank(span, w, h);
            proof {
                assert(span == stack0.last());
                assert(rest =~= stack0.drop_last());
                assert(span_ok(span, w, h));
                lemma_rank_range(span, w, h);
                assert forall|i: int| 0 <= i < rest.len() implies span_ok(#[trigger] rest[i], w, h) by {
                    assert(rest[i] == stack0[i]);
                }
                if rest.len() > 0 {
                    assert(rest[0] == stack0[0]);
                }
                vstd::arithmetic::power::lemma_pow_positive(w + 2, r as nat);
                assert(spans_measure(stack0, w, h) == spans_measure(rest, w, h) + pow(w + 2, r as nat));
                assert(self.span_anchored(b, seed, span));
                assert forall|i: int| 0 <= i < rest.len() implies self.span_anchored(b, seed, #[trigger] rest[i]) by {
                    assert(rest[i] == stack0[i]);
                }
            }
            let already = match self.get_codel((xl, y)).block_index() {
                Some(i) => i == bi,
                None => false,
            };
            if already {
                continue;
            }
            let mut west_edge = xl;
            let ghost before_west = *self;
            proof {
                if (xl, y) != seed {
                    let d = (xl, (y + dy) as usize);
                    assert(self.cells(b).insert(seed).contains(d));
                    assert(adjacent((xl, y), d));
                }
            }
            let west = self.find_colour_west_edge(block, Ghost(seed), (west_edge, y), colour);
            let ghost after_west = self.spec_codels();
            proof {
                lemma_grows_monotone(before_west, *self, b, seed);
                lemma_grows_trans(s0, codels0, after_west, b);
                lemma_grows_counts(codels0, after_west, b);
                if west.0 is Some {
                    // the codel at (xl, y) was not in the block, and now is
                    lemma_flat_in_range(w, h, (xl, y));
                    assert(self.spec_codel((xl, y)).spec_block_index() == Some(b));
                    assert(after_west[flat(h, (xl, y))].spec_block_index() == Some(b));
                    assert(codels0[flat(h, (xl, y))].spec_block_index() != Some(b));
                    assert(after_west != codels0);
                    assert(count_free(after_west) < free0);
                }
            }
            match west {
                (Some((new_west, _)), true) => {
                    west_edge = new_west;
                    if (dy == 1 && !self.is_southmost((xl, y))) || (dy == -1 && !self.is_northmost((xl, y))) {
                        let yb: usize = if dy == 1 { y + 1 } else { y - 1 };
                        let ghost before_push = stack@;
                        stack.push((yb, west_edge, xl - 1, -dy));
                        proof {
                            let e: Span = (yb, west_edge, (xl - 1) as usize, (-dy) as i8);
                            assert forall|xx: usize| e.1 <= xx <= e.2 implies ((xx, e.0) == seed
                                || (0 <= e.0 + e.3 && #[trigger] self.cells(b).insert(seed).contains((xx, (e.0 + e.3) as usize)))) by {
                                assert(((e.0 + e.3) as usize) == y);
                                assert(self.spec_codel((xx, y)).spec_block_index() == Some(b));
                            }
                            assert forall|i: int| 0 <= i < stack@.len() implies self.span_anchored(b, seed, #[trigger] stack@[i]) by {
                                if i < before_push.len() {
                                    assert(stack@[i] == before_push[i]);
                                }
                            }
                            assert forall|i: int| 0 <= i < stack@.len() implies span_ok(#[trigger] stack@[i], w, h) by {
                                if i < before_push.len() {
                                    assert(stack@[i] == before_push[i]);
                                }
                            }
                            if before_push.len() > 0 {
                                assert(stack@[0] == before_push[0]);
                            }
                        }
                    }
                },
                _ => {},
            }
            let ghost stack1 = stack@;
            proof {
                assert forall|xx: usize| west_edge <= xx <= xr && (#[trigger] self.spec_codel((xx, y))).spec_no_index()
                    implies self.anchored(b, seed, (xx, y)) by {
                    if xx < xl {
                        assert(self.spec_codel((xx, y)).spec_block_index() == Some(b));
                    } else if (xx, y) != seed {
                        let d = (xx, (y + dy) as usize);
                        assert(self.cells(b).insert(seed).contains(d));
                        assert(adjacent((xx, y), d));
                    }
                }
            }
            let ghost before_scan = *self;
            let (intervals, pushed_east) = self.find_disjoint_intervals(block, Ghost(seed), colour, (xr, y), (west_edge, y));
            let ghost after_scan = self.spec_codels();
            let ghost progress = count_free(after_scan) < free0;
            proof {
                lemma_grows_monotone(before_scan, *self, b, seed);
                assert forall|i: int| 0 <= i < stack@.len() implies self.span_anchored(b, seed, #[trigger] stack@[i]) by {
                    assert(before_scan.span_anchored(b, seed, stack@[i]));
                }
                lemma_grows_trans(s0, after_west, after_scan, b);
                lemma_grows_counts(after_west, after_scan, b);
                if !progress {
                    assert(west.0 is None);
                    assert(west_edge == xl);
                    assert(stack1 == rest);
                }
                assert(!progress ==> west_edge == xl && stack1 == rest);
                if seed_span == span && rest.len() == 0 {
                    // this scan started at the seed, so the seed now belongs to the block
                    lemma_flat_in_range(w, h, seed);
                    let i0 = flat(h, seed);
                    assert(after_west[i0].spec_block_index() == Some(b));
                    assert(self.cells(b).contains(seed));
                }
                if self.cells(b).contains(seed) || stack1.len() > 0 {
                } else {
                    assert(false);
                }
            }
            let ghost mut pushed: int = 0;
            if pushed_east && intervals.len() > 0 {
                let (_, (new_east, _)) = intervals[intervals.len() - 1];
                match self.east((xr, y)) {
                    Some((new_west, _)) => {
                        if (dy == 1 && !self.is_southmost((xl, y))) || (dy == -1 && !self.is_northmost((xl, y))) {
                            let yb: usize = if dy == 1 { y + 1 } else { y - 1 };
                            let ghost before_push = stack@;
                            let t: Span = (yb, new_west, new_east, -dy);
                            stack.push(t);
                            proof {
                                assert(span_ok(t, w, h));
                                let last = intervals@[intervals@.len() - 1];
                                assert forall|xx: usize| t.1 <= xx <= t.2 implies ((xx, t.0) == seed
                                    || (0 <= t.0 + t.3 && #[trigger] self.cells(b).insert(seed).contains((xx, (t.0 + t.3) as usize)))) by {
                                    assert(((t.0 + t.3) as usize) == y);
                                    assert(last.0.0 <= xx <= last.1.0);
                                    assert(self.spec_codel((xx, y)).spec_block_index() == Some(b));
                                }
                                assert forall|i: int| 0 <= i < stack@.len() implies self.span_anchored(b, seed, #[trigger] stack@[i]) by {
                                    if i < before_push.len() {
                                        assert(stack@[i] == before_push[i]);
                                    }
                                }
                                assert forall|i: int| 0 <= i < stack@.len() implies span_ok(#[trigger] stack@[i], w, h) by {
                                    if i < before_push.len() {
                                        assert(stack@[i] == before_push[i]);
                                    }
                                }
                                if before_push.len() > 0 {
                                    assert(stack@[0] == before_push[0]);
                                }
                                if !progress {
                                    lemma_rank_east(span, t, w, h);
                                    lemma_rank_range(t, w, h);
                                    lemma_push_below(before_push, t, w, h, r);
                                    pushed = pushed + 1;
                                }
                            }
                        }
                    },
                    None => {},
                }
            }
            proof {
                if !progress {
                    if pushed == 0 {
                        assert(stack@ == stack1);
                    }
                    assert(spans_measure(stack@, w, h) <= spans_measure(rest, w, h) + pushed * pow(w + 2, (r - 1) as nat));
                }
            }
            if (dy == 1 && !self.is_northmost((xl, y))) || (dy == -1 && !self.is_southmost((xl, y))) {
                let yf: usize = if dy == 1 { y - 1 } else { y + 1 };
                let mut k: usize = 0;
                while k < intervals.len()
                    invariant
                        0 <= k <= intervals@.len(),
                        intervals@.len() <= w,
                        forall|i: int| 0 <= i < intervals@.len() ==> {
                            let iv = #[trigger] intervals@[i];
                            &&& west_edge <= iv.0.0 <= iv.1.0 < w
                        },
                        span_ok(span, w, h),
                        span == (y, xl, xr, dy),
                        yf == y - dy,
                        yf < h,
                        w > 0,
                        h > 0,
                        0 <= pushed <= 1,
                        1 <= r,
                        r == span_rank(span, w, h),
                        !progress ==> west_edge == xl,
                        !progress ==> spans_measure(stack@, w, h) <= spans_measure(rest, w, h)
                            + (pushed + k) * pow(w + 2, (r - 1) as nat),
                        forall|i: int| 0 <= i < stack@.len() ==> span_ok(#[trigger] stack@[i], w, h),
                        stack@.len() >= stack1.len(),
                        stack1.len() > 0 ==> stack@[0] == stack1[0],
                        forall|i: int| 0 <= i < stack@.len() ==> self.span_anchored(b, seed, #[trigger] stack@[i]),
                        w == self.spec_width(),
                        h == self.spec_height(),
                        forall|i: int, xx: usize| 0 <= i < intervals@.len() && (#[trigger] intervals@[i]).0.0 <= xx <= intervals@[i].1.0
                            ==> (#[trigger] self.spec_codel((xx, y))).spec_block_index() == Some(b),
                    decreases intervals@.len() - k,
                {
                    let ((xw, _), (xe, _)) = intervals[k];
                    let ghost before_push = stack@;
                    let c: Span = (yf, xw, xe, dy);
                    stack.push(c);
                    proof {
                        assert(span_ok(c, w, h));
                        let iv = intervals@[k as int];
                        assert(iv.0.0 == xw && iv.1.0 == xe);
                        assert(c.0 + c.3 == y);
                        assert(((c.0 + c.3) as usize) == y);
                        assert forall|xx: usize| c.1 <= xx <= c.2 implies #[trigger] self.cells(b).contains((xx, y)) by {
                            assert(iv.0.0 <= xx <= iv.1.0);
                            assert(self.spec_codel((xx, y)).spec_block_index() == Some(b));
                        }
                        assert forall|xx: usize| c.1 <= xx <= c.2 implies ((xx, c.0) == seed
                            || (0 <= c.0 + c.3 && #[trigger] self.cells(b).insert(seed).contains((xx, (c.0 + c.3) as usize)))) by {
                            assert(self.cells(b).contains((xx, y)));
                        }
                        assert forall|i: int| 0 <= i < stack@.len() implies self.span_anchored(b, seed, #[trigger] stack@[i]) by {
                            if i < before_push.len() {
                                assert(stack@[i] == before_push[i]);
                            }
                        }
                        assert forall|i: int| 0 <= i < stack@.len() implies span_ok(#[trigger] stack@[i], w, h) by {
                            if i < before_push.len() {
                                assert(stack@[i] == before_push[i]);
                            }
                        }
                        if stack1.len() > 0 {
                            assert(stack@[0] == before_push[0]);
                        }
                        if !progress {
                            lemma_rank_forward(span, c, w, h);
                            lemma_rank_range(c, w, h);
                            lemma_push_below(before_push, c, w, h, r);
                            assert((pushed + k + 1) * pow(w + 2, (r - 1) as nat)
                                == (pushed + k) * pow(w + 2, (r - 1) as nat) + pow(w + 2, (r - 1) as nat)) by (nonlinear_arith);
                        }
                    }
                    k = k + 1;
                }
                proof {
                    if !progress {
                        assert(pushed + intervals@.len() < w + 2);
                        lemma_pushes_below(pushed + intervals@.len(), w, r);
                    }
                }
            } else {
                proof {
                    if !progress {
                        if pushed > 0 {
                            lemma_pushes_below(pushed, w, r);
                        }
                    }
                }
            }
            proof {
                if self.cells(b).contains(seed) {
                } else {
                    assert(stack@.len() > 0 && stack@[0] == seed_span);
                }
            }
        }
    }

    /// Gives the codel at `coordinate`, which has the block's colour, to the
    /// block, unless a block already holds it.
    fn add_coord_to_block(
        &mut self,
        block: &mut CodelBlock,
        Ghost(colour): Ghost<PietColour>,
        Ghost(seed): Ghost<Coordinate>,
        coordinate: Coordinate,
    )
        requires
            old(self).building(*old(block), colour, seed),
            old(self).in_bounds(coordinate),
            old(self).spec_codel(coordinate).spec_colour_name() == colour,
            old(self).linked(old(block).spec_index(), seed),
            old(self).spec_codel(coordinate).spec_no_index() ==> old(self).anchored(old(block).spec_index(), seed, coordinate),
        ensures
            final(self).building(*final(block), colour, seed),
            final(self).linked(old(block).spec_index(), seed),
            final(block).spec_index() == old(block).spec_index(),
            final(self).spec_dimensions() == old(self).spec_dimensions(),
            final(self).spec_blocks() == old(self).spec_blocks(),
            final(self).spec_codels() == (if old(self).spec_codel(coordinate).spec_no_index() {
                old(self).spec_codels().update(flat(old(self).spec_height(), coordinate),
                    old(self).spec_codel(coordinate).spec_with_index(old(block).spec_index()))
            } else {
                old(self).spec_codels()
            }),
            grows(old(self).spec_codels(), final(self).spec_codels(), old(block).spec_index()),
    {
        if !self.get_codel(coordinate).no_index() {
            return;
        }
        let ghost b = block.spec_index();
        let ghost old_self = *self;
        let ghost h = self.spec_height();
        let ghost w = self.spec_width();
        let ghost i = flat(h, coordinate);
        proof {
            lemma_flat_in_range(w, h, coordinate);
            lemma_count_lt(self.spec_codels(), i, b);
            assert(self.codels@.len() == self.codels.len());
        }
        block.add_coordinate(Ghost(self.cells(b).insert(seed)), coordinate);
        let (x, y) = coordinate;
        proof {
            assert(x * self.height + y < self.codels.len());
        }
        let base: usize = x * self.height;
        let mut codel = self.codels[base + y];
        codel.set_block_index(block.index());
        self.codels.set(base + y, codel);
        proof {
            let s0 = old_self.spec_codels();
            let s1 = self.spec_codels();
            old_self.spec_codel(coordinate).lemma_with_index(b);
            lemma_count_update(s0, i, b);
            assert(s1 == s0.update(i, s0[i].spec_with_index(b)));
            assert(grows(s0, s1, b));
            assert forall|c: Coordinate| on_grid(w, h, c) && c != coordinate implies #[trigger] s1[flat(h, c)] == s0[flat(h, c)] by {
                lemma_flat_in_range(w, h, c);
                if flat(h, c) == i {
                    lemma_flat_injective(h, c, coordinate);
                }
            }
            assert(self.cells(b) =~= old_self.cells(b).insert(coordinate));
            assert forall|b2: usize| b2 != b implies #[trigger] self.cells(b2) =~= old_self.cells(b2) by {}
            assert forall|k: int| 0 <= k < s1.len() implies #[trigger] crate::canvas::consistent(s1[k]) by {
                assert(crate::canvas::consistent(s0[k]));
                if k == i {
                    match s0[k] { Codel::Colour(c) => { c.lemma_with_index(b); }, _ => {} }
                }
            }
            assert forall|c: Coordinate| on_grid(w, h, c) implies
                #[trigger] self.spec_codel(c).spec_colour_name() == old_self.spec_codel(c).spec_colour_name() by {}
            assert forall|b2: int| 0 <= b2 < self.spec_blocks().len() implies #[trigger] self.block_ok(b2) by {
                assert(old_self.block_ok(b2));
                assert(self.cells(b2 as usize) =~= old_self.cells(b2 as usize));
                let blk = self.spec_blocks()[b2];
                assert forall|c: Coordinate| #[trigger] self.cells(b2 as usize).contains(c) implies
                    self.spec_codel(c).spec_colour_name() == self.spec_codel(blk.spec_coord(DP::North, CC::Left)).spec_colour_name() by {
                    assert(old_self.cells(b2 as usize).contains(c));
                    assert(is_extreme(old_self.cells(b2 as usize), DP::North, CC::Left, blk.spec_coord(DP::North, CC::Left)));
                }
            }
            assert(self.cells(b).insert(seed) =~= old_self.cells(b).insert(seed).insert(coordinate));
            let s_old = old_self.cells(b).insert(seed);
            let s_new = self.cells(b).insert(seed);
            assert(s_old.subset_of(s_new));
            assert forall|c: Coordinate| #[trigger] self.cells(b).contains(c) implies joined(s_new, c, seed) by {
                if c == coordinate {
                    if coordinate == seed {
                        lemma_joined_here(s_new, seed);
                    } else {
                        let d = choose|d: Coordinate| #[trigger] adjacent(coordinate, d) && s_old.contains(d);
                        if d == seed {
                            lemma_joined_here(s_old, seed);
                        } else {
                            assert(old_self.cells(b).contains(d));
                        }
                        lemma_joined_grow(s_old, s_new, d, seed);
                        lemma_joined_step(s_new, coordinate, d, seed);
                    }
                } else {
                    assert(old_self.cells(b).contains(c));
                    lemma_joined_grow(s_old, s_new, c, seed);
                }
            }
        }
    }
}

} // verus!
