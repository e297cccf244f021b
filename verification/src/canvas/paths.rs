//! Paths of neighbouring codels, and the codels that they join.

use vstd::prelude::*;

use crate::canvas::Coordinate;

verus! {

/// `c` and `d` are neighbours: one step apart, north, east, south or west.
pub open spec fn adjacent(c: Coordinate, d: Coordinate) -> bool {
    ||| c.0 == d.0 && (c.1 + 1 == d.1 || d.1 + 1 == c.1)
    ||| c.1 == d.1 && (c.0 + 1 == d.0 || d.0 + 1 == c.0)
}

/// Step `i` of `p` goes to a neighbour.
pub open spec fn steps_to_neighbour(p: Seq<Coordinate>, i: int) -> bool {
    adjacent(p[i], p[i + 1])
}

/// `p` is a path within `s`: not empty, every codel in `s`, and every step
/// to a neighbour.
pub open spec fn is_path(p: Seq<Coordinate>, s: Set<Coordinate>) -> bool {
    &&& p.len() > 0
    &&& forall|i: int| 0 <= i < p.len() ==> s.contains(#[trigger] p[i])
    &&& forall|i: int| 0 <= i < p.len() - 1 ==> #[trigger] steps_to_neighbour(p, i)
}

/// Some path within `s` leads from `a` to `b`.
pub open spec fn joined(s: Set<Coordinate>, a: Coordinate, b: Coordinate) -> bool {
    exists|p: Seq<Coordinate>| #[trigger] is_path(p, s) && p[0] == a && p.last() == b
}

/// A codel of `s` is joined to itself.
pub proof fn lemma_joined_here(s: Set<Coordinate>, a: Coordinate)
    requires
        s.contains(a),
    ensures
        joined(s, a, a),
{
    let p = seq![a];
    assert(is_path(p, s));
}

/// A path within a set is a path within every larger set.
pub proof fn lemma_joined_grow(s: Set<Coordinate>, t: Set<Coordinate>, a: Coordinate, b: Coordinate)
    requires
        joined(s, a, b),
        s.subset_of(t),
    ensures
        joined(t, a, b),
{
    let p = choose|p: Seq<Coordinate>| #[trigger] is_path(p, s) && p[0] == a && p.last() == b;
    assert(is_path(p, t));
}

/// A neighbour, in `s`, of a codel joined to `b` is joined to `b`.
pub proof fn lemma_joined_step(s: Set<Coordinate>, n: Coordinate, a: Coordinate, b: Coordinate)
    requires
        joined(s, a, b),
        adjacent(n, a),
        s.contains(n),
    ensures
        joined(s, n, b),
{
    let p = choose|p: Seq<Coordinate>| #[trigger] is_path(p, s) && p[0] == a && p.last() == b;
    let q = seq![n] + p;
    assert forall|i: int| 0 <= i < q.len() implies s.contains(#[trigger] q[i]) by {
        if i > 0 {
            assert(q[i] == p[i - 1]);
        }
    }
    assert forall|i: int| 0 <= i < q.len() - 1 implies #[trigger] steps_to_neighbour(q, i) by {
        if i == 0 {
            assert(q[1] == p[0]);
        } else {
            assert(q[i] == p[i - 1]);
            assert(q[i + 1] == p[i]);
            assert(steps_to_neighbour(p, i - 1));
        }
    }
    assert(is_path(q, s));
    assert(q.last() == p.last());
}

/// Paths run both ways.
pub proof fn lemma_joined_back(s: Set<Coordinate>, a: Coordinate, b: Coordinate)
    requires
        joined(s, a, b),
    ensures
        joined(s, b, a),
{
    let p = choose|p: Seq<Coordinate>| #[trigger] is_path(p, s) && p[0] == a && p.last() == b;
    let q = p.reverse();
    let n = p.len() as int;
    assert forall|i: int| 0 <= i < q.len() implies s.contains(#[trigger] q[i]) by {
        assert(q[i] == p[n - 1 - i]);
    }
    assert forall|i: int| 0 <= i < q.len() - 1 implies #[trigger] steps_to_neighbour(q, i) by {
        assert(q[i] == p[n - 1 - i]);
        assert(q[i + 1] == p[n - 2 - i]);
        assert(steps_to_neighbour(p, n - 2 - i));
    }
    assert(is_path(q, s));
    assert(q[0] == p[n - 1]);
    assert(q.last() == p[0]);
}

/// A path from `a` to `b` and one from `b` to `c` make one from `a` to `c`.
pub proof fn lemma_joined_chain(s: Set<Coordinate>, a: Coordinate, b: Coordinate, c: Coordinate)
    requires
        joined(s, a, b),
        joined(s, b, c),
    ensures
        joined(s, a, c),
{
    let p = choose|p: Seq<Coordinate>| #[trigger] is_path(p, s) && p[0] == a && p.last() == b;
    let r = choose|r: Seq<Coordinate>| #[trigger] is_path(r, s) && r[0] == b && r.last() == c;
    let n = p.len() as int;
    let q = p.drop_last() + r;
    assert forall|i: int| 0 <= i < q.len() implies s.contains(#[trigger] q[i]) by {
        if i < n - 1 {
            assert(q[i] == p[i]);
        } else {
            assert(q[i] == r[i - (n - 1)]);
        }
    }
    assert forall|i: int| 0 <= i < q.len() - 1 implies #[trigger] steps_to_neighbour(q, i) by {
        if i < n - 2 {
            assert(q[i] == p[i]);
            assert(q[i + 1] == p[i + 1]);
            assert(steps_to_neighbour(p, i));
        } else if i == n - 2 {
            assert(q[i] == p[i]);
            assert(q[i + 1] == r[0]);
            assert(steps_to_neighbour(p, i));
        } else {
            assert(q[i] == r[i - (n - 1)]);
            assert(q[i + 1] == r[i - (n - 1) + 1]);
            assert(steps_to_neighbour(r, i - (n - 1)));
        }
    }
    assert(is_path(q, s));
    if n == 1 {
        assert(q[0] == r[0]);
    } else {
        assert(q[0] == p[0]);
    }
    assert(q.last() == r.last());
}

/// The codels of a path from `k` on lie in `s`, where `s` holds the path's
/// last codel and, with each codel that it holds, every neighbour of that
/// codel in `t`.
proof fn lemma_path_tail(t: Set<Coordinate>, s: Set<Coordinate>, p: Seq<Coordinate>, k: int)
    requires
        is_path(p, t),
        s.contains(p.last()),
        forall|c: Coordinate, d: Coordinate| s.contains(c) && #[trigger] adjacent(c, d) && t.contains(d) ==> s.contains(d),
        0 <= k < p.len(),
    ensures
        s.contains(p[k]),
    decreases p.len() - k,
{
    if k < p.len() - 1 {
        lemma_path_tail(t, s, p, k + 1);
        assert(steps_to_neighbour(p, k));
        assert(adjacent(p[k + 1], p[k]));
        assert(t.contains(p[k]));
    }
}

/// A set that holds `b` and, with each codel that it holds, every neighbour
/// of that codel in `t`, holds every codel joined to `b` within `t`.
pub proof fn lemma_joined_closed(t: Set<Coordinate>, s: Set<Coordinate>, a: Coordinate, b: Coordinate)
    requires
        joined(t, a, b),
        s.contains(b),
        forall|c: Coordinate, d: Coordinate| s.contains(c) && #[trigger] adjacent(c, d) && t.contains(d) ==> s.contains(d),
    ensures
        s.contains(a),
{
    let p = choose|p: Seq<Coordinate>| #[trigger] is_path(p, t) && p[0] == a && p.last() == b;
    lemma_path_tail(t, s, p, 0);
}

} // verus!
