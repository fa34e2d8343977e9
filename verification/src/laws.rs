//! What holds of the board, of reading one, and of the search, for every input.

use crate::grid::{
    are_peers, in_grid, is_digit, lemma_blank_wf, lemma_most_constrained_is,
    lemma_nth_peer_distinct, lemma_nth_peer_is_peer, lemma_peer_is_nth, lemma_rank_unrank,
    lemma_set_extends, lemma_unrank_rank, nth_peer, rank, unrank, Grid, Pos, Square,
};
use crate::search::{lemma_search_result, search};
use crate::sudoku::{lemma_view_injective, Sudoku};
use crate::sudoku_solver::solve;
use crate::text::{
    board_of, consistent, given_at, givens, lemma_board_of_holds_givens, lemma_board_of_wf,
};
use crate::units::{lemma_full_is_solved, lemma_solved_peers_differ};
use vstd::prelude::*;

verus! {

/// The peer relation is symmetric.
pub proof fn law_peers_are_symmetric(p: Pos, q: Pos)
    ensures
        are_peers(p, q) == are_peers(q, p),
{
}

/// A square has twenty peers: a square of the board is a peer of `p` exactly
/// when it is one of the twenty that `nth_peer` lists, and those are all
/// different.
pub proof fn law_twenty_peers(p: Pos, q: Pos)
    requires
        in_grid(p),
        in_grid(q),
    ensures
        are_peers(p, q) <==> exists|k: int| 0 <= k < 20 && #[trigger] nth_peer(p, k) == q,
        forall|j: int, k: int|
            0 <= j < k < 20 ==> #[trigger] nth_peer(p, j) != #[trigger] nth_peer(p, k),
{
    if are_peers(p, q) {
        lemma_peer_is_nth(p, q);
    }
    assert forall|k: int| 0 <= k < 20 implies are_peers(p, #[trigger] nth_peer(p, k)) by {
        lemma_nth_peer_is_peer(p, k);
    }
    assert forall|j: int, k: int| 0 <= j < k < 20 implies #[trigger] nth_peer(p, j)
        != #[trigger] nth_peer(p, k) by {
        lemma_nth_peer_distinct(p, j, k);
    }
}

/// Once a square is fixed it stays fixed to its digit, whatever is set
/// afterwards, and the square that was set holds the digit that was set.
pub proof fn law_set_keeps_fixed_squares(g: Grid, p: Pos, v: int)
    requires
        g.can_set(p, v),
    ensures
        g.extended_by(g.set(p, v)),
        g.set(p, v).at(p) == Square::Fixed(v),
{
    lemma_set_extends(g, p, v);
}

/// Once `p` is fixed to `v`, no open peer of `p` admits `v` any more, and
/// every open square admits what it admitted before, `v` apart.
pub proof fn law_set_strikes_open_peers(g: Grid, p: Pos, v: int, q: Pos)
    requires
        g.can_set(p, v),
        in_grid(q),
        q != p,
        g.at(q) is Open,
    ensures
        g.set(p, v).at(q) matches Square::Open(s) && (are_peers(p, q) ==> !s.contains(v)) && forall|
            w: int,
        |
            w != v ==> s.contains(w) == g.at(q)->Open_0.contains(w),
{
    assert(g.set(p, v).at(q) == g.square_after_set(p, v, q));
}

/// Reading and then solving: where some solved board holds every given of a
/// text, the givens are consistent, so the text can be read, and the search
/// on the board that was read finds a board on which every row, every column
/// and every box holds each digit exactly once, and which holds every given.
pub proof fn law_read_then_solve(text: Seq<char>, t: Grid)
    requires
        board_of(givens(text)).has_solution(t),
    ensures
        consistent(givens(text)),
        search(board_of(givens(text))) matches Some(s) && s.is_solved() && forall|p: Pos|
            in_grid(p) && is_digit(#[trigger] given_at(givens(text), p)) ==> s.at(p)
                == Square::Fixed(given_at(givens(text), p)),
{
    let given = givens(text);
    let g = board_of(given);
    assert forall|p: Pos, q: Pos|
        in_grid(p) && in_grid(q) && are_peers(p, q) && is_digit(
            #[trigger] given_at(given, p),
        ) implies given_at(given, p) != #[trigger] given_at(given, q) by {
        lemma_board_of_holds_givens(given, p);
        lemma_board_of_holds_givens(given, q);
        lemma_solved_peers_differ(t, p, q);
        assert(g.at(p) is Fixed);
        if given_at(given, p) == given_at(given, q) {
            assert(g.at(q) is Fixed);
        }
    }
    lemma_board_of_wf(given, given.len() as int);
    assert(given.take(given.len() as int) =~= given);
    lemma_search_result(g);
    let s = search(g)->0;
    assert forall|p: Pos| in_grid(p) && is_digit(#[trigger] given_at(given, p)) implies s.at(p)
        == Square::Fixed(given_at(given, p)) by {
        lemma_board_of_holds_givens(given, p);
        assert(g.at(p) is Fixed);
    }
}

/// The digit at `p` of a board that is solved by construction: the first
/// row counts from 1 to 9, and each row is the one above it moved three
/// places to the left, or one place where a new band begins.
pub open spec fn pattern_digit(p: Pos) -> int {
    (3 * (p.0 % 3) + p.0 / 3 + p.1) % 9 + 1
}

/// The board that holds `pattern_digit` at every square.
pub open spec fn pattern() -> Grid {
    Grid { rows: Seq::new(9, |r: int| Seq::new(9, |c: int| Square::Fixed(pattern_digit((r, c))))) }
}

/// Two numbers below 17 that differ, but not by 9, leave different
/// remainders on division by 9.
proof fn lemma_remainders_differ(a: int, b: int)
    requires
        0 <= a < 17,
        0 <= b < 17,
        a != b,
        a != b + 9,
        b != a + 9,
    ensures
        a % 9 != b % 9,
{
    assert(a % 9 == if a < 9 { a } else { a - 9 });
    assert(b % 9 == if b < 9 { b } else { b - 9 });
}

/// On the pattern no two peers hold the same digit.
pub proof fn lemma_pattern_peers_differ(p: Pos, q: Pos)
    requires
        in_grid(p),
        in_grid(q),
        are_peers(p, q),
    ensures
        pattern_digit(p) != pattern_digit(q),
{
    let (pb, pr) = (p.0 / 3, p.0 % 3);
    let (qb, qr) = (q.0 / 3, q.0 % 3);
    assert(p.0 == 3 * pb + pr && 0 <= pb < 3 && 0 <= pr < 3);
    assert(q.0 == 3 * qb + qr && 0 <= qb < 3 && 0 <= qr < 3);
    let a = 3 * pr + pb + p.1;
    let b = 3 * qr + qb + q.1;
    if p.0 == q.0 {
        assert(a - b == p.1 - q.1);
    } else if p.1 == q.1 {
        assert(a - b == 3 * (pr - qr) + (pb - qb));
    } else {
        assert(pb == qb);
        assert(p.1 == 3 * (p.1 / 3) + p.1 % 3 && q.1 == 3 * (q.1 / 3) + q.1 % 3);
        assert(a - b == 3 * (pr - qr) + (p.1 % 3 - q.1 % 3));
    }
    lemma_remainders_differ(a, b);
}

/// The pattern is a full well-formed board.
pub proof fn lemma_pattern_is_full()
    ensures
        pattern().wf(),
        pattern().is_full(),
{
    let t = pattern();
    assert forall|p: Pos| in_grid(p) implies #[trigger] t.at(p) == Square::Fixed(
        pattern_digit(p),
    ) by {}
    assert forall|p: Pos| in_grid(p) implies #[trigger] t.square_ok(p) by {
        let v = pattern_digit(p);
        if t.blocked(p, v) {
            lemma_pattern_peers_differ(p, t.blocker(p, v));
        }
    }
}

/// The blank board has a solution, and the search finds one.
pub proof fn law_blank_is_solved_by_search()
    ensures
        Grid::blank().has_solution(pattern()),
        search(Grid::blank()) matches Some(s) && s.is_solved(),
{
    let g = Grid::blank();
    lemma_blank_wf();
    lemma_pattern_is_full();
    lemma_full_is_solved(pattern());
    assert forall|p: Pos| in_grid(p) implies !((#[trigger] g.at(p)) is Fixed) by {}
    assert(g.has_solution(pattern()));
    lemma_search_result(g);
}

/// Two peers that are given the same digit make the givens inconsistent, so
/// that the text cannot be read; two squares of one row are such peers.
pub proof fn law_equal_givens_clash(text: Seq<char>, i: int, j: int)
    requires
        0 <= i < givens(text).len(),
        0 <= j < givens(text).len(),
        i != j,
        i / 9 == j / 9 || are_peers(unrank(i), unrank(j)),
        is_digit(givens(text)[i]),
        givens(text)[i] == givens(text)[j],
    ensures
        !consistent(givens(text)),
{
    let given = givens(text);
    lemma_unrank_rank(i);
    lemma_unrank_rank(j);
    assert(are_peers(unrank(i), unrank(j)));
    assert(given_at(given, unrank(i)) == given[i]);
    assert(given_at(given, unrank(j)) == given[j]);
}

/// A well-formed board without a solution has no result of the search.
pub proof fn law_no_solution_no_result(g: Grid)
    requires
        g.wf(),
        forall|t: Grid| !g.has_solution(t),
    ensures
        search(g) is None,
{
    lemma_search_result(g);
}

/// Where one open square admits a single digit and every other open square
/// admits two or more, that square is the most constrained one, wherever it
/// stands.
pub proof fn law_single_choice_is_most_constrained(g: Grid, p: Pos)
    requires
        in_grid(p),
        g.at(p).is_open(),
        g.at(p).choices() == 1,
        forall|q: Pos|
            in_grid(q) && q != p && (#[trigger] g.at(q)).is_open() ==> g.at(q).choices() >= 2,
    ensures
        g.most_constrained() == Some((p, 1nat)),
{
    assert forall|q: Pos|
        in_grid(q) && rank(q) < 81 && (#[trigger] g.at(q)).is_open() implies g.leads(p, q) by {}
    lemma_rank_unrank(p);
    lemma_most_constrained_is(g, p);
}

/// A fixed square cannot be set, whatever the digit.
pub proof fn law_fixed_cannot_be_set(g: Grid, p: Pos, v: int)
    requires
        g.at(p) is Fixed,
    ensures
        !g.can_set(p, v),
{
}

/// The solver depends on the content of the board alone: two boards with
/// the same content are the same board, and whatever two runs of the solver
/// on them return is the same, be it a board or none. A clone has the
/// content of the board that it was made from.
pub proof fn law_solve_is_a_function(
    a: Sudoku,
    b: Sudoku,
    from_a: Option<Sudoku>,
    from_b: Option<Sudoku>,
)
    requires
        a@ == b@,
        call_ensures(solve, (&a,), from_a),
        call_ensures(solve, (&b,), from_b),
    ensures
        a == b,
        from_a == from_b,
{
    lemma_view_injective(a, b);
    if let Some(x) = from_a {
        lemma_view_injective(x, from_b->0);
    }
}

} // verus!
