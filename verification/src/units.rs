//! Rows, columns and boxes, and what it means for a board to be solved.

use crate::grid::{are_peers, in_grid, is_digit, Grid, Pos, Square};
use vstd::prelude::*;
use vstd::set_lib::{lemma_int_range, lemma_subset_equality, set_int_range};

verus! {

/// The `k`-th square of unit `u`: units 0 to 8 are the rows from top to
/// bottom, 9 to 17 the columns from left to right, 18 to 26 the boxes in
/// row-major order.
pub open spec fn unit_pos(u: int, k: int) -> Pos {
    if u < 9 {
        (u, k)
    } else if u < 18 {
        (k, u - 9)
    } else {
        ((u - 18) / 3 * 3 + k / 3, (u - 18) % 3 * 3 + k % 3)
    }
}

/// The row of `p` as a unit.
pub open spec fn row_of(p: Pos) -> int {
    p.0
}

/// The column of `p` as a unit.
pub open spec fn column_of(p: Pos) -> int {
    9 + p.1
}

/// The box of `p` as a unit.
pub open spec fn box_of(p: Pos) -> int {
    18 + p.0 / 3 * 3 + p.1 / 3
}

/// The place of `p` within its box.
pub open spec fn place_in_box(p: Pos) -> int {
    p.0 % 3 * 3 + p.1 % 3
}

impl Grid {
    /// Exactly one square of unit `u` is fixed to `v`.
    pub open spec fn once_in_unit(self, u: int, v: int) -> bool {
        exists|k: int|
            0 <= k < 9 && #[trigger] self.at(unit_pos(u, k)) == Square::Fixed(v) && forall|j: int|
                0 <= j < 9 && j != k ==> #[trigger] self.at(unit_pos(u, j)) != Square::Fixed(v)
    }

    /// Every row, every column and every box holds each of the digits 1 to 9
    /// exactly once.
    pub open spec fn is_solved(self) -> bool {
        &&& self.shaped()
        &&& forall|u: int, v: int| 0 <= u < 27 && is_digit(v) ==> #[trigger] self.once_in_unit(u, v)
    }

    /// Whether `other` is a solved board that keeps every square that `self`
    /// has fixed.
    pub open spec fn has_solution(self, other: Grid) -> bool {
        other.is_solved() && self.extended_by(other)
    }
}

/// A sequence of `hi - lo` different integers from `lo` up to `hi`, `hi`
/// left out, holds each of them.
pub proof fn lemma_distinct_fill(s: Seq<int>, lo: int, hi: int, v: int)
    requires
        lo <= hi,
        s.len() == hi - lo,
        s.no_duplicates(),
        forall|i: int| 0 <= i < s.len() ==> lo <= #[trigger] s[i] < hi,
        lo <= v < hi,
    ensures
        s.contains(v),
{
    broadcast use vstd::seq_lib::seq_to_set_is_finite;

    s.unique_seq_to_set();
    lemma_int_range(lo, hi);
    assert(s.to_set().subset_of(set_int_range(lo, hi)));
    lemma_subset_equality(s.to_set(), set_int_range(lo, hi));
    assert(set_int_range(lo, hi).contains(v));
    assert(s.to_set().contains(v));
}

/// The squares of a unit are on the board.
pub proof fn lemma_unit_pos_in_grid(u: int, k: int)
    requires
        0 <= u < 27,
        0 <= k < 9,
    ensures
        in_grid(unit_pos(u, k)),
{
}

/// Two different squares of one unit are peers.
pub proof fn lemma_unit_squares_are_peers(u: int, j: int, k: int)
    requires
        0 <= u < 27,
        0 <= j < 9,
        0 <= k < 9,
        j != k,
    ensures
        are_peers(unit_pos(u, j), unit_pos(u, k)),
{
}

/// A square stands in its row, in its column and in its box.
pub proof fn lemma_units_of(p: Pos)
    requires
        in_grid(p),
    ensures
        0 <= row_of(p) < 9,
        unit_pos(row_of(p), p.1) == p,
        9 <= column_of(p) < 18,
        unit_pos(column_of(p), p.0) == p,
        18 <= box_of(p) < 27,
        0 <= place_in_box(p) < 9,
        unit_pos(box_of(p), place_in_box(p)) == p,
{
}

/// The unit that two peers share: the row where they share one, else the
/// column where they share one, else the box.
pub open spec fn shared_unit(p: Pos, q: Pos) -> int {
    if p.0 == q.0 {
        row_of(p)
    } else if p.1 == q.1 {
        column_of(p)
    } else {
        box_of(p)
    }
}

/// The place of `p` in the unit that it shares with `q`.
pub open spec fn place_in_shared(p: Pos, q: Pos) -> int {
    if p.0 == q.0 {
        p.1
    } else if p.1 == q.1 {
        p.0
    } else {
        place_in_box(p)
    }
}

/// Two peers stand at different places of the unit that they share.
pub proof fn lemma_peers_share_unit(p: Pos, q: Pos)
    requires
        in_grid(p),
        in_grid(q),
        are_peers(p, q),
    ensures
        0 <= shared_unit(p, q) < 27,
        0 <= place_in_shared(p, q) < 9,
        0 <= place_in_shared(q, p) < 9,
        place_in_shared(p, q) != place_in_shared(q, p),
        unit_pos(shared_unit(p, q), place_in_shared(p, q)) == p,
        unit_pos(shared_unit(p, q), place_in_shared(q, p)) == q,
{
    lemma_units_of(p);
    lemma_units_of(q);
}

/// The digit of a fixed square (0 for an open one).
pub open spec fn digit_of(sq: Square) -> int {
    match sq {
        Square::Fixed(v) => v,
        Square::Open(_) => 0,
    }
}

/// A full well-formed board is solved.
pub proof fn lemma_full_is_solved(g: Grid)
    requires
        g.wf(),
        g.is_full(),
    ensures
        g.is_solved(),
{
    assert forall|u: int, v: int| 0 <= u < 27 && is_digit(v) implies #[trigger] g.once_in_unit(
        u,
        v,
    ) by {
        let s = Seq::new(9, |k: int| digit_of(g.at(unit_pos(u, k))));
        assert forall|k: int| 0 <= k < 9 implies g.at(unit_pos(u, k)) == Square::Fixed(s[k])
            && is_digit(#[trigger] s[k]) by {
            lemma_unit_pos_in_grid(u, k);
            let p = unit_pos(u, k);
            assert(!g.at(p).is_open());
            assert(g.square_ok(p));
        }
        assert forall|j: int, k: int| 0 <= j < 9 && 0 <= k < 9 && j != k implies s[j] != s[k] by {
            lemma_unit_squares_are_peers(u, j, k);
            lemma_unit_pos_in_grid(u, j);
            lemma_unit_pos_in_grid(u, k);
            let p = unit_pos(u, j);
            let q = unit_pos(u, k);
            assert(g.square_ok(p));
            if s[j] == s[k] {
                assert(g.at(q) == Square::Fixed(s[j]));
                assert(g.blocked(p, s[j]));
            }
        }
        lemma_distinct_fill(s, 1, 10, v);
        let k = choose|k: int| 0 <= k < s.len() && s[k] == v;
        assert(g.at(unit_pos(u, k)) == Square::Fixed(v));
        assert forall|j: int| 0 <= j < 9 && j != k implies #[trigger] g.at(unit_pos(u, j))
            != Square::Fixed(v) by {
            assert(g.at(unit_pos(u, j)) == Square::Fixed(s[j]));
        }
    }
}

/// The place at which unit `u` holds `v` (where it holds it exactly once).
pub open spec fn place_of(g: Grid, u: int, v: int) -> int {
    choose|k: int|
        0 <= k < 9 && #[trigger] g.at(unit_pos(u, k)) == Square::Fixed(v) && forall|j: int|
            0 <= j < 9 && j != k ==> #[trigger] g.at(unit_pos(u, j)) != Square::Fixed(v)
}

/// On a solved board every square is fixed to a digit.
pub proof fn lemma_solved_is_full(g: Grid, p: Pos)
    requires
        g.is_solved(),
        in_grid(p),
    ensures
        g.at(p) is Fixed,
        is_digit(digit_of(g.at(p))),
{
    let u = row_of(p);
    lemma_units_of(p);
    let s = Seq::new(9, |i: int| place_of(g, u, i + 1));
    assert forall|i: int| 0 <= i < 9 implies 0 <= #[trigger] s[i] < 9 && g.at(unit_pos(u, s[i]))
        == Square::Fixed(i + 1) by {
        assert(g.once_in_unit(u, i + 1));
    }
    assert forall|i: int, j: int| 0 <= i < 9 && 0 <= j < 9 && i != j implies s[i] != s[j] by {
        assert(g.at(unit_pos(u, s[i])) == Square::Fixed(i + 1));
        assert(g.at(unit_pos(u, s[j])) == Square::Fixed(j + 1));
    }
    lemma_distinct_fill(s, 0, 9, p.1);
    let i = choose|i: int| 0 <= i < s.len() && s[i] == p.1;
    assert(g.at(unit_pos(u, s[i])) == Square::Fixed(i + 1));
}

/// On a solved board no two peers hold the same digit.
pub proof fn lemma_solved_peers_differ(g: Grid, p: Pos, q: Pos)
    requires
        g.is_solved(),
        in_grid(p),
        in_grid(q),
        are_peers(p, q),
    ensures
        g.at(p) != g.at(q),
{
    lemma_solved_is_full(g, p);
    lemma_peers_share_unit(p, q);
    let v = digit_of(g.at(p));
    let u = shared_unit(p, q);
    assert(g.once_in_unit(u, v));
    let k = place_of(g, u, v);
    if g.at(q) == g.at(p) {
        assert(place_in_shared(p, q) == k);
        assert(place_in_shared(q, p) == k);
    }
}

/// A solved board is full and well formed.
pub proof fn lemma_solved_is_wf(g: Grid)
    requires
        g.is_solved(),
    ensures
        g.wf(),
        g.is_full(),
{
    assert forall|p: Pos| in_grid(p) implies !(#[trigger] g.at(p)).is_open() by {
        lemma_solved_is_full(g, p);
    }
    assert forall|p: Pos| in_grid(p) implies #[trigger] g.square_ok(p) by {
        lemma_solved_is_full(g, p);
        let v = digit_of(g.at(p));
        if g.blocked(p, v) {
            lemma_solved_peers_differ(g, p, g.blocker(p, v));
        }
    }
}

} // verus!
