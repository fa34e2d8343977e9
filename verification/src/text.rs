//! Boards as text: which characters of a puzzle count and what they give,
//! and how a board is written out.

use crate::grid::{
    are_peers, in_grid, is_digit, lemma_blank_wf, lemma_rank_unrank, lemma_same_squares,
    lemma_set_wf, lemma_unrank_rank, rank, unrank, Grid, Pos, Square,
};
use vstd::prelude::*;
use vstd::std_specs::iter::IteratorSpec;

verus! {

/// The characters that stand for a square: the ASCII digits and the dot.
pub open spec fn is_square_char(c: char) -> bool {
    c == '.' || ('0' <= c && c <= '9')
}

/// The digit that a character gives: 1 to 9 for `'1'` to `'9'`, and 0, which
/// stands for no digit, for every other character.
pub open spec fn char_digit(c: char) -> int {
    if '1' <= c && c <= '9' {
        c as int - '0' as int
    } else {
        0
    }
}

/// The characters of a text that stand for a square, in their order.
pub open spec fn kept(text: Seq<char>) -> Seq<char> {
    text.filter(|c: char| is_square_char(c))
}

/// Whether `c` stands for a square.
pub fn keeps(c: char) -> (b: bool)
    ensures
        b == is_square_char(c),
{
    c == '.' || ('0' <= c && c <= '9')
}

/// The digit from 1 to 9 that `c` gives, `None` where it gives none.
pub fn digit(c: char) -> (d: Option<u8>)
    ensures
        d matches Some(v) ==> v == char_digit(c) && 1 <= v <= 9,
        d is None ==> char_digit(c) == 0,
{
    if '1' <= c && c <= '9' {
        Some((c as u32 - '0' as u32) as u8)
    } else {
        None
    }
}

/// What is kept of a text with one more character at its end.
pub proof fn lemma_kept_push(text: Seq<char>, c: char)
    ensures
        kept(text.push(c)) == if is_square_char(c) {
            kept(text).push(c)
        } else {
            kept(text)
        },
{
    reveal(Seq::filter);
    assert(text.push(c).drop_last() =~= text);
}

/// The characters of `s` that stand for a square, in their order.
pub fn square_chars(s: &str) -> (out: Vec<char>)
    ensures
        out@ == kept(s@),
{
    let mut out: Vec<char> = Vec::new();
    let mut it = s.chars();
    let ghost mut seen: Seq<char> = Seq::empty();
    proof {
        reveal(Seq::filter);
        assert(s@ =~= seen + it.remaining());
    }
    loop
        invariant_except_break
            it.decrease() is Some,
            s@ == seen + it.remaining(),
            out@ == kept(seen),
        ensures
            out@ == kept(s@),
        decreases it.decrease()->0,
    {
        match it.next() {
            Some(c) => {
                proof {
                    lemma_kept_push(seen, c);
                    assert(seen.push(c) + it.remaining() =~= s@);
                    seen = seen.push(c);
                }
                if keeps(c) {
                    out.push(c);
                }
            },
            None => {
                assert(s@ =~= seen);
                break;
            },
        }
    }
    out
}

/// The givens of a text: for each of the first 81 characters that stand for
/// a square, in row-major order, the digit that it gives (0 for none).
pub open spec fn givens(text: Seq<char>) -> Seq<int> {
    let squares = kept(text);
    Seq::new(if squares.len() < 81 { squares.len() } else { 81 }, |i: int| char_digit(squares[i]))
}

/// The digit given for the square at `p`, 0 where none is given.
pub open spec fn given_at(given: Seq<int>, p: Pos) -> int {
    if 0 <= rank(p) < given.len() {
        given[rank(p)]
    } else {
        0
    }
}

/// Some peer of `p` is given the digit `v`.
pub open spec fn given_to_peer(given: Seq<int>, p: Pos, v: int) -> bool {
    exists|q: Pos| in_grid(q) && are_peers(p, q) && #[trigger] given_at(given, q) == v
}

/// No two peers are given the same digit.
pub open spec fn consistent(given: Seq<int>) -> bool {
    forall|p: Pos, q: Pos|
        in_grid(p) && in_grid(q) && are_peers(p, q) && is_digit(#[trigger] given_at(given, p))
            ==> given_at(given, p) != #[trigger] given_at(given, q)
}

/// The square at `p` of the board that holds the givens and nothing else.
pub open spec fn square_of(given: Seq<int>, p: Pos) -> Square {
    if is_digit(given_at(given, p)) {
        Square::Fixed(given_at(given, p))
    } else {
        Square::Open(Set::new(|d: int| is_digit(d) && !given_to_peer(given, p, d)))
    }
}

/// The board that holds the givens and nothing else: a square with a given
/// digit is fixed to it, every other square is open to the digits that none
/// of its peers is given.
pub open spec fn board_of(given: Seq<int>) -> Grid {
    Grid { rows: Seq::new(9, |r: int| Seq::new(9, |c: int| square_of(given, (r, c)))) }
}

/// Whether each entry is a digit or 0, and there are at most 81 of them.
pub open spec fn well_given(given: Seq<int>) -> bool {
    &&& given.len() <= 81
    &&& forall|i: int| 0 <= i < given.len() ==> 0 <= #[trigger] given[i] <= 9
}

/// With no givens the board is blank.
pub proof fn lemma_board_of_nothing()
    ensures
        board_of(Seq::empty()) == Grid::blank(),
        consistent(Seq::empty()),
{
    let given = Seq::<int>::empty();
    assert forall|p: Pos| in_grid(p) implies #[trigger] board_of(given).at(p) == Grid::blank().at(
        p,
    ) by {
        assert forall|d: int| is_digit(d) implies !given_to_peer(given, p, d) by {
            if given_to_peer(given, p, d) {
                let q = choose|q: Pos|
                    in_grid(q) && are_peers(p, q) && #[trigger] given_at(given, q) == d;
            }
        }
        assert(square_of(given, p)->Open_0 =~= Set::new(|v: int| is_digit(v)));
    }
    lemma_same_squares(board_of(given), Grid::blank());
}

/// What one more given does to the board of the givens before it. A given
/// 0 changes nothing. A digit that a peer was given before cannot be set,
/// and the givens are inconsistent from then on. Any other digit can be
/// set, and setting it yields the board of the longer givens.
pub proof fn lemma_board_of_next(given: Seq<int>, k: int)
    requires
        well_given(given),
        0 <= k < given.len(),
        consistent(given.take(k)),
    ensures
        !is_digit(given[k]) ==> board_of(given.take(k + 1)) == board_of(given.take(k))
            && consistent(given.take(k + 1)),
        is_digit(given[k]) ==> (board_of(given.take(k)).can_set(unrank(k), given[k])
            <==> consistent(given.take(k + 1))),
        is_digit(given[k]) && consistent(given.take(k + 1)) ==> board_of(given.take(k + 1))
            == board_of(given.take(k)).set(unrank(k), given[k]),
        !consistent(given.take(k + 1)) ==> !consistent(given),
{
    let before = given.take(k);
    let after = given.take(k + 1);
    let here = unrank(k);
    let d = given[k];
    let g = board_of(before);
    let h = board_of(after);
    lemma_unrank_rank(k);
    assert forall|q: Pos| in_grid(q) implies #[trigger] given_at(after, q) == (if q == here {
        d
    } else {
        given_at(before, q)
    }) && (is_digit(given_at(after, q)) ==> given_at(given, q) == given_at(after, q)) by {
        lemma_rank_unrank(q);
    }
    assert(given_at(before, here) == 0);
    assert forall|q: Pos, v: int| in_grid(q) && is_digit(v) implies (#[trigger] given_to_peer(
        after,
        q,
        v,
    ) <==> (given_to_peer(before, q, v) || (are_peers(q, here) && v == d))) by {
        if given_to_peer(after, q, v) {
            let t = choose|t: Pos|
                in_grid(t) && are_peers(q, t) && #[trigger] given_at(after, t) == v;
            if t != here {
                assert(given_at(before, t) == v);
            }
        }
        if given_to_peer(before, q, v) {
            let t = choose|t: Pos|
                in_grid(t) && are_peers(q, t) && #[trigger] given_at(before, t) == v;
            assert(given_at(after, t) == v);
        }
        if are_peers(q, here) && v == d {
            assert(given_at(after, here) == v);
        }
    }
    assert forall|q: Pos| in_grid(q) implies #[trigger] g.at(q) == square_of(before, q) && h.at(q)
        == square_of(after, q) by {}
    if !consistent(after) {
        let (p, q) = choose|p: Pos, q: Pos|
            in_grid(p) && in_grid(q) && are_peers(p, q) && is_digit(#[trigger] given_at(after, p))
                && given_at(after, p) == #[trigger] given_at(after, q);
        assert(given_at(given, p) == given_at(given, q));
    }
    if !is_digit(d) {
        assert forall|q: Pos| in_grid(q) implies #[trigger] h.at(q) == g.at(q) by {
            if !is_digit(given_at(after, q)) {
                assert(square_of(after, q)->Open_0 =~= square_of(before, q)->Open_0);
            }
        }
        lemma_same_squares(h, g);
        assert forall|p: Pos, q: Pos|
            in_grid(p) && in_grid(q) && are_peers(p, q) && is_digit(
                #[trigger] given_at(after, p),
            ) implies given_at(after, p) != #[trigger] given_at(after, q) by {
            assert(given_at(before, p) == given_at(after, p));
            if q != here {
                assert(given_at(before, q) == given_at(after, q));
            }
        }
    } else {
        if given_to_peer(before, here, d) {
            let t = choose|t: Pos|
                in_grid(t) && are_peers(here, t) && #[trigger] given_at(before, t) == d;
            assert(given_at(after, t) == given_at(after, here));
            assert(!consistent(after));
        } else {
            assert forall|p: Pos, q: Pos|
                in_grid(p) && in_grid(q) && are_peers(p, q) && is_digit(
                    #[trigger] given_at(after, p),
                ) implies given_at(after, p) != #[trigger] given_at(after, q) by {
                if p == here {
                    assert(given_at(before, q) == given_at(after, q));
                } else if q == here {
                    assert(given_at(before, p) == given_at(after, p));
                } else {
                    assert(given_at(before, p) == given_at(after, p));
                    assert(given_at(before, q) == given_at(after, q));
                }
            }
            let hs = g.set(here, d);
            assert forall|q: Pos| in_grid(q) implies #[trigger] h.at(q) == hs.at(q) by {
                assert(hs.at(q) == g.square_after_set(here, d, q));
                if q != here && !is_digit(given_at(after, q)) {
                    assert(given_at(before, q) == given_at(after, q));
                    let was = square_of(before, q)->Open_0;
                    let now = square_of(after, q)->Open_0;
                    if are_peers(here, q) {
                        assert(now =~= was.remove(d));
                    } else {
                        assert(now =~= was);
                    }
                }
            }
            lemma_same_squares(h, hs);
        }
    }
}

/// The board of the first `k` of consistent givens is well formed, and those
/// `k` are consistent.
pub proof fn lemma_board_of_wf(given: Seq<int>, k: int)
    requires
        well_given(given),
        consistent(given),
        0 <= k <= given.len(),
    ensures
        consistent(given.take(k)),
        board_of(given.take(k)).wf(),
    decreases k,
{
    if k == 0 {
        assert(given.take(0) =~= Seq::empty());
        lemma_board_of_nothing();
        lemma_blank_wf();
    } else {
        lemma_board_of_wf(given, k - 1);
        lemma_board_of_next(given, k - 1);
        lemma_unrank_rank(k - 1);
        if is_digit(given[k - 1]) {
            lemma_set_wf(board_of(given.take(k - 1)), unrank(k - 1), given[k - 1]);
        }
    }
}

/// The board of the givens fixes each square to the digit that it is given,
/// and leaves every other square open.
pub proof fn lemma_board_of_holds_givens(given: Seq<int>, p: Pos)
    requires
        in_grid(p),
    ensures
        is_digit(given_at(given, p)) ==> board_of(given).at(p) == Square::Fixed(given_at(given, p)),
        !is_digit(given_at(given, p)) ==> board_of(given).at(p) is Open,
{
}

/// The character of a decimal digit.
pub open spec fn digit_char(d: int) -> char {
    ('0' as int + d) as char
}

/// A natural number in decimal, without leading zeros.
pub open spec fn decimal(n: nat) -> Seq<char>
    decreases n,
{
    if n < 10 {
        seq![digit_char(n as int)]
    } else {
        decimal(n / 10).push(digit_char((n % 10) as int))
    }
}

/// A square as text: its digit where it is fixed, a middle dot where it is open.
pub open spec fn square_text(sq: Square) -> Seq<char> {
    match sq {
        Square::Fixed(v) => decimal(v as nat),
        Square::Open(_) => seq!['\u{b7}'],
    }
}

/// The line that frames the bands of three rows.
pub open spec fn rule() -> Seq<char> {
    "+-------+-------+-------+"@
}

/// The first `c` squares of row `r` as text: each square followed by a
/// space, with a bar and a space before every third square.
pub open spec fn row_text_upto(g: Grid, r: int, c: int) -> Seq<char>
    decreases c,
{
    if c <= 0 {
        Seq::empty()
    } else {
        row_text_upto(g, r, c - 1) + (if (c - 1) % 3 == 0 {
            seq!['|', ' ']
        } else {
            Seq::empty()
        }) + square_text(g.at((r, c - 1))) + seq![' ']
    }
}

/// Row `r` as a line of text, closed by a bar and a line feed.
pub open spec fn row_text(g: Grid, r: int) -> Seq<char> {
    row_text_upto(g, r, 9) + seq!['|', '\n']
}

/// The first `r` rows as text, with the rule on a line of its own before
/// every third row.
pub open spec fn board_text_upto(g: Grid, r: int) -> Seq<char>
    decreases r,
{
    if r <= 0 {
        Seq::empty()
    } else {
        board_text_upto(g, r - 1) + (if (r - 1) % 3 == 0 {
            rule() + seq!['\n']
        } else {
            Seq::empty()
        }) + row_text(g, r - 1)
    }
}

/// The board as text: nine lines of squares in three bands, framed by
/// rules, with no line feed at the end.
pub open spec fn board_text(g: Grid) -> Seq<char> {
    board_text_upto(g, 9) + rule()
}

} // verus!
