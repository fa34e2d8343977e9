//! The mathematical model of a 9x9 board: positions, the peer relation,
//! squares that are either fixed or open, and what it means to fix a square.

use vstd::prelude::*;

verus! {

/// A position on the board: (row, column).
pub type Pos = (int, int);

/// Whether `p` is one of the 81 positions of the board.
pub open spec fn in_grid(p: Pos) -> bool {
    0 <= p.0 < 9 && 0 <= p.1 < 9
}

/// Whether `v` is one of the digits 1 to 9.
pub open spec fn is_digit(v: int) -> bool {
    1 <= v <= 9
}

/// Whether `p` and `q` lie in the same box of three by three.
pub open spec fn same_box(p: Pos, q: Pos) -> bool {
    p.0 / 3 == q.0 / 3 && p.1 / 3 == q.1 / 3
}

/// Two distinct positions are peers when they share a row, a column or a box.
pub open spec fn are_peers(p: Pos, q: Pos) -> bool {
    p != q && (p.0 == q.0 || p.1 == q.1 || same_box(p, q))
}

/// The place of a position in row-major order.
pub open spec fn rank(p: Pos) -> int {
    p.0 * 9 + p.1
}

/// The position that stands at place `k` of row-major order.
pub open spec fn unrank(k: int) -> Pos {
    (k / 9, k % 9)
}

/// What the model knows of one square: its final digit, or the digits
/// that may still be written there.
pub enum Square {
    /// The square holds this digit for good.
    Fixed(int),
    /// The square holds no digit yet and admits these.
    Open(Set<int>),
}

impl Square {
    /// Whether the square holds no digit yet.
    pub open spec fn is_open(self) -> bool {
        self is Open
    }

    /// How many digits an open square still admits (0 for a fixed one).
    pub open spec fn choices(self) -> nat {
        match self {
            Square::Fixed(_) => 0,
            Square::Open(s) => s.len(),
        }
    }
}

/// The model of a board: its squares, row by row.
pub struct Grid {
    pub rows: Seq<Seq<Square>>,
}

impl Grid {
    /// The square at `p`.
    pub open spec fn at(self, p: Pos) -> Square {
        self.rows[p.0][p.1]
    }

    /// Nine rows of nine squares.
    pub open spec fn shaped(self) -> bool {
        &&& self.rows.len() == 9
        &&& forall|r: int| 0 <= r < 9 ==> (#[trigger] self.rows[r]).len() == 9
    }

    /// Some peer of `p` is fixed to `v`.
    pub open spec fn blocked(self, p: Pos, v: int) -> bool {
        exists|q: Pos| in_grid(q) && are_peers(p, q) && #[trigger] self.at(q) == Square::Fixed(v)
    }

    /// A peer of `p` that is fixed to `v`, where there is one.
    pub open spec fn blocker(self, p: Pos, v: int) -> Pos {
        choose|q: Pos| in_grid(q) && are_peers(p, q) && #[trigger] self.at(q) == Square::Fixed(v)
    }

    /// The digits that no fixed peer of `p` holds.
    pub open spec fn candidates(self, p: Pos) -> Set<int> {
        Set::new(|v: int| is_digit(v) && !self.blocked(p, v))
    }

    /// A fixed square holds a digit that none of its fixed peers holds, and an
    /// open square admits exactly the digits that none of its fixed peers holds.
    pub open spec fn square_ok(self, p: Pos) -> bool {
        match self.at(p) {
            Square::Fixed(v) => is_digit(v) && !self.blocked(p, v),
            Square::Open(s) => s == self.candidates(p),
        }
    }

    /// What holds of every board that was made from the blank one by fixing
    /// squares one by one: it is nine by nine, and each square agrees with
    /// the fixed squares among its peers.
    pub open spec fn wf(self) -> bool {
        &&& self.shaped()
        &&& forall|p: Pos| in_grid(p) ==> #[trigger] self.square_ok(p)
    }

    /// Every square is open and admits all nine digits.
    pub open spec fn blank() -> Grid {
        Grid {
            rows: Seq::new(
                9,
                |r: int| Seq::new(9, |c: int| Square::Open(Set::new(|v: int| is_digit(v)))),
            ),
        }
    }

    /// Whether `p` is an open square of the board that still admits `v`.
    pub open spec fn can_set(self, p: Pos, v: int) -> bool {
        in_grid(p) && (self.at(p) matches Square::Open(s) && s.contains(v))
    }

    /// The square at `q` once `v` has been struck from the open peers of `p`.
    pub open spec fn square_after_strike(self, p: Pos, v: int, q: Pos) -> Square {
        match self.at(q) {
            Square::Open(s) if are_peers(p, q) => Square::Open(s.remove(v)),
            other => other,
        }
    }

    /// The board once `v` has been struck from the open peers of `p`.
    pub open spec fn strike_peers(self, p: Pos, v: int) -> Grid {
        Grid {
            rows: Seq::new(
                9,
                |r: int| Seq::new(9, |c: int| self.square_after_strike(p, v, (r, c))),
            ),
        }
    }

    /// The square at `q` once `p` has been fixed to `v`: `p` itself holds `v`,
    /// an open peer of `p` loses `v`, every other square stays.
    pub open spec fn square_after_set(self, p: Pos, v: int, q: Pos) -> Square {
        if q == p {
            Square::Fixed(v)
        } else {
            self.square_after_strike(p, v, q)
        }
    }

    /// The board once `p` has been fixed to `v`.
    pub open spec fn set(self, p: Pos, v: int) -> Grid {
        Grid {
            rows: Seq::new(9, |r: int| Seq::new(9, |c: int| self.square_after_set(p, v, (r, c)))),
        }
    }

    /// `p` comes before `q` in the search: it admits fewer digits, or as
    /// many and does not stand later in row-major order.
    pub open spec fn leads(self, p: Pos, q: Pos) -> bool {
        self.at(p).choices() < self.at(q).choices() || (self.at(p).choices() == self.at(q).choices()
            && rank(p) <= rank(q))
    }

    /// Among the open squares at the first `k` places of row-major order,
    /// `p` is the first of those that admit the fewest digits.
    pub open spec fn is_most_constrained_below(self, p: Pos, k: int) -> bool {
        &&& in_grid(p)
        &&& rank(p) < k
        &&& self.at(p).is_open()
        &&& forall|q: Pos|
            in_grid(q) && rank(q) < k && (#[trigger] self.at(q)).is_open() ==> self.leads(p, q)
    }

    /// Among all open squares, `p` is the first in row-major order of those
    /// that admit the fewest digits.
    pub open spec fn is_most_constrained(self, p: Pos) -> bool {
        self.is_most_constrained_below(p, 81)
    }

    /// No open square stands at the first `k` places of row-major order.
    pub open spec fn is_full_below(self, k: int) -> bool {
        forall|p: Pos| in_grid(p) && rank(p) < k ==> !(#[trigger] self.at(p)).is_open()
    }

    /// The most constrained open square with the number of digits it
    /// admits, or `None` where no square is open.
    pub open spec fn most_constrained(self) -> Option<(Pos, nat)> {
        if exists|p: Pos| self.is_most_constrained(p) {
            let p = choose|p: Pos| self.is_most_constrained(p);
            Some((p, self.at(p).choices()))
        } else {
            None
        }
    }

    /// The number of open squares at the first `k` places of row-major order.
    pub open spec fn open_below(self, k: int) -> nat
        decreases k,
    {
        if k <= 0 {
            0
        } else {
            self.open_below(k - 1) + if self.at(unrank(k - 1)).is_open() { 1nat } else { 0nat }
        }
    }

    /// The number of open squares.
    pub open spec fn open_count(self) -> nat {
        self.open_below(81)
    }

    /// No square is open.
    pub open spec fn is_full(self) -> bool {
        forall|p: Pos| in_grid(p) ==> !(#[trigger] self.at(p)).is_open()
    }

    /// Every square that `self` has fixed, `other` has fixed to the same digit.
    pub open spec fn extended_by(self, other: Grid) -> bool {
        forall|p: Pos| in_grid(p) && (#[trigger] self.at(p)) is Fixed ==> other.at(p) == self.at(p)
    }
}

/// Two boards of nine by nine that hold the same squares are the same board.
pub proof fn lemma_same_squares(a: Grid, b: Grid)
    requires
        a.shaped(),
        b.shaped(),
        forall|p: Pos| in_grid(p) ==> #[trigger] a.at(p) == b.at(p),
    ensures
        a == b,
{
    assert forall|r: int| 0 <= r < 9 implies #[trigger] a.rows[r] =~= b.rows[r] by {
        assert forall|c: int| 0 <= c < 9 implies #[trigger] a.rows[r][c] == b.rows[r][c] by {
            assert(a.at((r, c)) == b.at((r, c)));
        }
    }
    assert(a.rows =~= b.rows);
}

/// Row-major order numbers the squares of the board from 0 to 80.
pub proof fn lemma_rank_unrank(p: Pos)
    requires
        in_grid(p),
    ensures
        0 <= rank(p) < 81,
        unrank(rank(p)) == p,
{
}

/// Each number from 0 to 80 is the place of one square of the board.
pub proof fn lemma_unrank_rank(k: int)
    requires
        0 <= k < 81,
    ensures
        in_grid(unrank(k)),
        rank(unrank(k)) == k,
{
}

/// The `k`-th of the twenty peers of `p`: first the eight others of its row
/// from left to right, then the eight others of its column from top to
/// bottom, then the four squares of its box that lie in another row and
/// another column.
pub open spec fn nth_peer(p: Pos, k: int) -> Pos {
    if k < 8 {
        (p.0, if k >= p.1 { k + 1 } else { k })
    } else if k < 16 {
        (if k - 8 >= p.0 { k - 7 } else { k - 8 }, p.1)
    } else {
        (
            p.0 / 3 * 3 + (p.0 % 3 + (k - 16) / 2 + 1) % 3,
            p.1 / 3 * 3 + (p.1 % 3 + (k - 16) % 2 + 1) % 3,
        )
    }
}

/// Each of the twenty is on the board and a peer of `p`.
pub proof fn lemma_nth_peer_is_peer(p: Pos, k: int)
    requires
        in_grid(p),
        0 <= k < 20,
    ensures
        in_grid(nth_peer(p, k)),
        are_peers(p, nth_peer(p, k)),
{
}

/// The twenty are pairwise different.
pub proof fn lemma_nth_peer_distinct(p: Pos, j: int, k: int)
    requires
        in_grid(p),
        0 <= j < k < 20,
    ensures
        nth_peer(p, j) != nth_peer(p, k),
{
}

/// The place among the twenty at which a peer `q` of `p` stands.
pub open spec fn peer_index(p: Pos, q: Pos) -> int {
    if q.0 == p.0 {
        if q.1 < p.1 { q.1 } else { q.1 - 1 }
    } else if q.1 == p.1 {
        8 + if q.0 < p.0 { q.0 } else { q.0 - 1 }
    } else {
        16 + 2 * ((q.0 % 3 + 2 - p.0 % 3) % 3) + (q.1 % 3 + 2 - p.1 % 3) % 3
    }
}

/// Within one band of three, the step from `a` to another coordinate `b`.
proof fn lemma_band_step(a: int, b: int)
    requires
        0 <= a < 9,
        0 <= b < 9,
        a / 3 == b / 3,
        a != b,
    ensures
        0 <= (b % 3 + 2 - a % 3) % 3 < 2,
        a / 3 * 3 + (a % 3 + (b % 3 + 2 - a % 3) % 3 + 1) % 3 == b,
{
    let x = a % 3;
    let y = b % 3;
    assert(a == a / 3 * 3 + x);
    assert(b == b / 3 * 3 + y);
    assert(x != y);
    if x == 0 {
        if y == 1 {
        } else {
            assert(y == 2);
        }
    } else if x == 1 {
        if y == 0 {
        } else {
            assert(y == 2);
        }
    } else {
        assert(x == 2);
        if y == 0 {
        } else {
            assert(y == 1);
        }
    }
}

/// Every peer of `p` is one of the twenty.
pub proof fn lemma_peer_is_nth(p: Pos, q: Pos)
    requires
        in_grid(p),
        in_grid(q),
        are_peers(p, q),
    ensures
        0 <= peer_index(p, q) < 20,
        nth_peer(p, peer_index(p, q)) == q,
{
    if q.0 == p.0 {
    } else if q.1 == p.1 {
    } else {
        lemma_band_step(p.0, q.0);
        lemma_band_step(p.1, q.1);
        let i = (q.0 % 3 + 2 - p.0 % 3) % 3;
        let j = (q.1 % 3 + 2 - p.1 % 3) % 3;
        let k = 16 + 2 * i + j;
        assert(peer_index(p, q) == k);
        assert((k - 16) / 2 == i && (k - 16) % 2 == j);
    }
}

/// At most one square is the most constrained one.
pub proof fn lemma_most_constrained_unique(g: Grid, p: Pos, q: Pos)
    requires
        g.is_most_constrained(p),
        g.is_most_constrained(q),
    ensures
        p == q,
{
    assert(g.leads(p, q));
    assert(g.leads(q, p));
}

/// Where a most constrained square is known, `most_constrained` names it.
pub proof fn lemma_most_constrained_is(g: Grid, p: Pos)
    requires
        g.is_most_constrained(p),
    ensures
        g.most_constrained() == Some((p, g.at(p).choices())),
{
    let q = choose|q: Pos| g.is_most_constrained(q);
    lemma_most_constrained_unique(g, p, q);
}

/// Fixing an open square leaves one open square fewer among the first `k`
/// places if the square stands there, and as many if it does not.
pub proof fn lemma_set_open_below(g: Grid, p: Pos, v: int, k: int)
    requires
        in_grid(p),
        g.at(p).is_open(),
        0 <= k <= 81,
    ensures
        g.set(p, v).open_below(k) + (if rank(p) < k { 1nat } else { 0nat }) == g.open_below(k),
    decreases k,
{
    if k > 0 {
        lemma_set_open_below(g, p, v, k - 1);
        let q = unrank(k - 1);
        assert(g.set(p, v).at(q) == g.square_after_set(p, v, q));
    }
}

/// Fixing an open square leaves one open square fewer.
pub proof fn lemma_set_open_count(g: Grid, p: Pos, v: int)
    requires
        in_grid(p),
        g.at(p).is_open(),
    ensures
        g.set(p, v).open_count() + 1 == g.open_count(),
{
    lemma_set_open_below(g, p, v, 81);
}

/// The most constrained square among the first `k` places of row-major
/// order, found by going through them one by one.
pub open spec fn best_below(g: Grid, k: int) -> Option<Pos>
    decreases k,
{
    if k <= 0 {
        None
    } else {
        let prev = best_below(g, k - 1);
        let q = unrank(k - 1);
        if g.at(q).is_open() && (prev is None || g.at(q).choices() < g.at(prev->0).choices()) {
            Some(q)
        } else {
            prev
        }
    }
}

/// Going through the first `k` places finds their most constrained square,
/// or nothing where none of them is open.
pub proof fn lemma_best_below(g: Grid, k: int)
    requires
        0 <= k <= 81,
    ensures
        match best_below(g, k) {
            None => g.is_full_below(k),
            Some(p) => g.is_most_constrained_below(p, k),
        },
    decreases k,
{
    if k > 0 {
        lemma_best_below(g, k - 1);
        let prev = best_below(g, k - 1);
        let last = unrank(k - 1);
        lemma_unrank_rank(k - 1);
        assert forall|q: Pos| in_grid(q) && rank(q) < k implies rank(q) < k - 1 || q == last by {
            lemma_rank_unrank(q);
        }
        match best_below(g, k) {
            None => {
                assert forall|q: Pos| in_grid(q) && rank(q) < k implies !(#[trigger] g.at(
                    q,
                )).is_open() by {
                    if q != last {
                        assert(rank(q) < k - 1);
                    }
                }
            },
            Some(p) => {
                assert forall|q: Pos|
                    in_grid(q) && rank(q) < k && (#[trigger] g.at(q)).is_open() implies g.leads(
                    p,
                    q,
                ) by {
                    if q != last {
                        assert(rank(q) < k - 1);
                        if let Some(b) = prev {
                            assert(g.leads(b, q));
                        }
                    }
                }
            },
        }
    }
}

/// Where no square is the most constrained one, no square is open.
pub proof fn lemma_no_most_constrained(g: Grid)
    requires
        g.most_constrained() is None,
    ensures
        g.is_full(),
{
    lemma_best_below(g, 81);
    match best_below(g, 81) {
        None => {
            assert forall|p: Pos| in_grid(p) implies !(#[trigger] g.at(p)).is_open() by {
                lemma_rank_unrank(p);
            }
        },
        Some(p) => {
            assert(g.is_most_constrained(p));
        },
    }
}

/// What `most_constrained` names is the most constrained square, with the
/// number of digits that it admits.
pub proof fn lemma_most_constrained_some(g: Grid)
    requires
        g.most_constrained() is Some,
    ensures
        g.most_constrained() matches Some((p, n)) && g.is_most_constrained(p) && n == g.at(
            p,
        ).choices(),
{
}

/// The digits that a square may still take are among 1 to 9, so finitely many.
pub proof fn lemma_candidates_finite(g: Grid, p: Pos)
    ensures
        g.candidates(p).finite(),
        g.candidates(p).len() <= 9,
{
    vstd::set_lib::lemma_int_range(1, 10);
    assert(g.candidates(p).subset_of(vstd::set_lib::set_int_range(1, 10)));
    vstd::set_lib::lemma_len_subset(g.candidates(p), vstd::set_lib::set_int_range(1, 10));
}

/// Fixing an open square keeps every square that was fixed before.
pub proof fn lemma_set_extends(g: Grid, p: Pos, v: int)
    requires
        in_grid(p),
        g.at(p).is_open(),
    ensures
        g.extended_by(g.set(p, v)),
        g.set(p, v).at(p) == Square::Fixed(v),
{
    let h = g.set(p, v);
    assert forall|q: Pos| in_grid(q) implies #[trigger] h.at(q) == g.square_after_set(p, v, q) by {}
    assert forall|q: Pos| in_grid(q) && (#[trigger] g.at(q)) is Fixed implies h.at(q) == g.at(
        q,
    ) by {
        assert(h.at(q) == g.square_after_set(p, v, q));
    }
}

/// A board that keeps the fixed squares of `h`, which keeps those of `g`,
/// keeps those of `g`.
pub proof fn lemma_extended_by_transitive(g: Grid, h: Grid, t: Grid)
    requires
        g.extended_by(h),
        h.extended_by(t),
    ensures
        g.extended_by(t),
{
    assert forall|q: Pos| in_grid(q) && (#[trigger] g.at(q)) is Fixed implies t.at(q) == g.at(
        q,
    ) by {
        assert(h.at(q) == g.at(q));
        assert(h.at(q) is Fixed);
    }
}

/// The blank board is well formed.
pub proof fn lemma_blank_wf()
    ensures
        Grid::blank().wf(),
{
    let g = Grid::blank();
    assert forall|p: Pos| in_grid(p) implies #[trigger] g.square_ok(p) by {
        assert forall|v: int| !g.blocked(p, v) by {
            if g.blocked(p, v) {
                assert(g.at(g.blocker(p, v)) is Open);
            }
        }
        assert(g.at(p)->Open_0 =~= g.candidates(p));
    }
}

/// After `p` is fixed to `v`, a digit is blocked at `q` exactly when it was
/// blocked before, or it is `v` and `q` is a peer of `p`.
pub proof fn lemma_blocked_after_set(g: Grid, p: Pos, v: int, q: Pos, w: int)
    requires
        g.shaped(),
        in_grid(p),
        in_grid(q),
        g.at(p) is Open,
    ensures
        g.set(p, v).blocked(q, w) <==> (g.blocked(q, w) || (are_peers(q, p) && w == v)),
{
    let h = g.set(p, v);
    assert forall|t: Pos| in_grid(t) implies #[trigger] h.at(t) == g.square_after_set(p, v, t) by {}
    if h.blocked(q, w) {
        let t = h.blocker(q, w);
        if t != p {
            assert(g.at(t) == Square::Fixed(w));
        }
    }
    if g.blocked(q, w) {
        let t = g.blocker(q, w);
        assert(t != p);
        assert(h.at(t) == Square::Fixed(w));
    }
    if are_peers(q, p) && w == v {
        assert(h.at(p) == Square::Fixed(w));
    }
}

/// Fixing an open square to one of its candidates keeps the board well formed.
pub proof fn lemma_set_wf(g: Grid, p: Pos, v: int)
    requires
        g.wf(),
        in_grid(p),
        g.can_set(p, v),
    ensures
        g.set(p, v).wf(),
{
    let h = g.set(p, v);
    assert(g.square_ok(p));
    assert forall|q: Pos| in_grid(q) implies #[trigger] h.square_ok(q) by {
        assert(g.square_ok(q));
        assert(h.at(q) == g.square_after_set(p, v, q));
        assert forall|w: int|
            h.blocked(q, w) <==> (g.blocked(q, w) || (are_peers(q, p) && w == v)) by {
            lemma_blocked_after_set(g, p, v, q, w);
        }
        match h.at(q) {
            Square::Fixed(w) => {
                if q != p && are_peers(q, p) && w == v {
                    // `v` would have been blocked at `p` by `q`
                    assert(g.at(q) == Square::Fixed(v));
                    assert(g.blocked(p, v));
                }
            },
            Square::Open(s) => {
                assert(s =~= h.candidates(q));
            },
        }
    }
}

} // verus!
