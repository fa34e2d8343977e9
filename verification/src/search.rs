//! The search for a completion, as a function of the board alone.

use crate::grid::{
    are_peers, in_grid, lemma_candidates_finite, lemma_extended_by_transitive,
    lemma_most_constrained_some, lemma_no_most_constrained, lemma_set_extends,
    lemma_set_open_count, lemma_set_wf, Grid, Pos, Square,
};
use crate::units::{digit_of, lemma_full_is_solved, lemma_solved_is_wf};
use vstd::prelude::*;

verus! {

/// The completion that the search finds for `g`: the board itself where no
/// square is open; nothing where the most constrained square admits no
/// digit; else what `search_from` finds at that square, beginning with 1.
pub open spec fn search(g: Grid) -> Option<Grid>
    decreases g.open_count(), 10int,
{
    match g.most_constrained() {
        None => Some(g),
        Some((p, n)) => if n == 0 {
            None
        } else {
            search_from(g, p, 1)
        },
    }
}

/// The completion found by trying the digits from `v` to 9 at `p` in
/// ascending order: that of the first digit which `p` admits and whose board
/// has a completion.
pub open spec fn search_from(g: Grid, p: Pos, v: int) -> Option<Grid>
    decreases g.open_count(), 10 - v,
{
    if v < 1 || v > 9 {
        None
    } else if g.can_set(p, v) {
        proof {
            lemma_set_open_count(g, p, v);
        }
        match search(g.set(p, v)) {
            Some(s) => Some(s),
            None => search_from(g, p, v + 1),
        }
    } else {
        search_from(g, p, v + 1)
    }
}

/// What the search returns is a full well-formed board that keeps every
/// square that `g` has fixed.
pub proof fn lemma_search_sound(g: Grid)
    requires
        g.wf(),
    ensures
        search(g) matches Some(s) ==> s.wf() && s.is_full() && g.extended_by(s),
    decreases g.open_count(), 10int,
{
    match g.most_constrained() {
        None => {
            lemma_no_most_constrained(g);
        },
        Some((p, n)) => {
            if n != 0 {
                lemma_search_from_sound(g, p, 1);
            }
        },
    }
}

/// What the search from digit `v` at `p` returns is a full well-formed board
/// that keeps every square that `g` has fixed.
pub proof fn lemma_search_from_sound(g: Grid, p: Pos, v: int)
    requires
        g.wf(),
    ensures
        search_from(g, p, v) matches Some(s) ==> s.wf() && s.is_full() && g.extended_by(s),
    decreases g.open_count(), 10 - v,
{
    if v < 1 || v > 9 {
    } else if g.can_set(p, v) {
        lemma_set_open_count(g, p, v);
        lemma_set_wf(g, p, v);
        lemma_set_extends(g, p, v);
        lemma_search_sound(g.set(p, v));
        match search(g.set(p, v)) {
            Some(s) => {
                lemma_extended_by_transitive(g, g.set(p, v), s);
            },
            None => {
                lemma_search_from_sound(g, p, v + 1);
            },
        }
    } else {
        lemma_search_from_sound(g, p, v + 1);
    }
}

/// An open square of `g` still admits the digit that a full well-formed
/// board `t` holds there, where `t` keeps every square that `g` has fixed.
pub proof fn lemma_solution_digit_is_candidate(g: Grid, t: Grid, p: Pos)
    requires
        g.wf(),
        t.wf(),
        t.is_full(),
        g.extended_by(t),
        in_grid(p),
        g.at(p).is_open(),
    ensures
        t.at(p) is Fixed,
        g.can_set(p, digit_of(t.at(p))),
{
    let w = digit_of(t.at(p));
    assert(!t.at(p).is_open());
    assert(t.square_ok(p));
    assert(g.square_ok(p));
    if g.blocked(p, w) {
        let q = g.blocker(p, w);
        assert(t.at(q) == g.at(q));
        assert(t.blocked(p, w));
    }
}

/// Once an open square of `g` is fixed to the digit that `t` holds there,
/// `t` still keeps every fixed square.
pub proof fn lemma_set_toward(g: Grid, t: Grid, p: Pos)
    requires
        g.extended_by(t),
        in_grid(p),
        g.at(p).is_open(),
        t.at(p) is Fixed,
    ensures
        g.set(p, digit_of(t.at(p))).extended_by(t),
{
    let v = digit_of(t.at(p));
    let h = g.set(p, v);
    assert forall|q: Pos| in_grid(q) && (#[trigger] h.at(q)) is Fixed implies t.at(q) == h.at(
        q,
    ) by {
        assert(h.at(q) == g.square_after_set(p, v, q));
        if q != p {
            assert(g.at(q) is Fixed);
        }
    }
}

/// Where some full well-formed board keeps every square that `g` has fixed,
/// the search finds a completion.
pub proof fn lemma_search_complete(g: Grid, t: Grid)
    requires
        g.wf(),
        t.wf(),
        t.is_full(),
        g.extended_by(t),
    ensures
        search(g) is Some,
    decreases g.open_count(), 10int,
{
    match g.most_constrained() {
        None => {},
        Some((p, n)) => {
            lemma_most_constrained_some(g);
            lemma_solution_digit_is_candidate(g, t, p);
            assert(g.square_ok(p));
            lemma_candidates_finite(g, p);
            assert(g.candidates(p).contains(digit_of(t.at(p))));
            assert(n != 0);
            lemma_search_from_complete(g, t, p, 1);
        },
    }
}

/// Where some full well-formed board keeps every square that `g` has fixed
/// and holds at `p` a digit from `v` on, the search from `v` at `p` finds a
/// completion.
pub proof fn lemma_search_from_complete(g: Grid, t: Grid, p: Pos, v: int)
    requires
        g.wf(),
        t.wf(),
        t.is_full(),
        g.extended_by(t),
        in_grid(p),
        g.at(p).is_open(),
        1 <= v <= digit_of(t.at(p)),
    ensures
        search_from(g, p, v) is Some,
    decreases g.open_count(), 10 - v,
{
    let w = digit_of(t.at(p));
    lemma_solution_digit_is_candidate(g, t, p);
    assert(g.square_ok(p));
    assert(1 <= w <= 9);
    if g.can_set(p, v) {
        lemma_set_open_count(g, p, v);
        lemma_set_wf(g, p, v);
        if search(g.set(p, v)) is None {
            if v == w {
                lemma_set_toward(g, t, p);
                lemma_search_complete(g.set(p, v), t);
            }
            lemma_search_from_complete(g, t, p, v + 1);
        }
    } else {
        lemma_search_from_complete(g, t, p, v + 1);
    }
}

/// What the search returns is a solution of `g`, and it returns one
/// wherever `g` has a solution.
pub proof fn lemma_search_result(g: Grid)
    requires
        g.wf(),
    ensures
        search(g) matches Some(s) ==> g.has_solution(s),
        search(g) is None ==> forall|t: Grid| !g.has_solution(t),
{
    lemma_search_sound(g);
    if let Some(s) = search(g) {
        lemma_full_is_solved(s);
    }
    assert forall|t: Grid| g.has_solution(t) implies search(g) is Some by {
        lemma_solved_is_wf(t);
        lemma_search_complete(g, t);
    }
}

} // verus!
