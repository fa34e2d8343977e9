//! The board as the solver holds it, and the operations that keep it consistent.

use crate::grid::{
    are_peers, in_grid, is_digit, lemma_blank_wf, lemma_most_constrained_is,
    lemma_nth_peer_distinct, lemma_nth_peer_is_peer, lemma_peer_is_nth, lemma_same_squares,
    lemma_set_wf, nth_peer, peer_index, Grid, Pos, Square,
};
use crate::text::{
    board_of, board_text, board_text_upto, consistent, decimal, digit, digit_char, givens, kept,
    lemma_board_of_next, lemma_board_of_nothing, row_text_upto, square_chars, square_text,
    well_given,
};
use vstd::prelude::*;

verus! {

/// One square of the board.
#[derive(Copy, Clone)]
pub enum Cell {
    /// The square's final digit.
    Value(u8),
    /// Which of the digits 1 to 9 may still be written here; digit `d` at index `d - 1`.
    Allowed([bool; 9]),
}

/// The digits up to `k` that the flags admit.
pub open spec fn allowed_upto(flags: [bool; 9], k: int) -> Set<int> {
    Set::new(|d: int| 1 <= d <= k && d <= 9 && flags[d - 1])
}

impl View for Cell {
    type V = Square;

    open spec fn view(&self) -> Square {
        match *self {
            Cell::Value(v) => Square::Fixed(v as int),
            Cell::Allowed(flags) => Square::Open(allowed_upto(flags, 9)),
        }
    }
}

/// Nine rows of nine squares.
pub type Board = [[Cell; 9]; 9];

/// The model of a board: square by square, the model of each cell.
pub open spec fn board_grid(board: Board) -> Grid {
    Grid { rows: Seq::new(9, |r: int| Seq::new(9, |c: int| board[r][c]@)) }
}

/// The model's position for a pair of indices.
pub open spec fn pos(index: (usize, usize)) -> Pos {
    (index.0 as int, index.1 as int)
}

/// A board whose open squares admit exactly the digits that none of their
/// fixed peers holds. It changes through `set` alone.
pub struct Sudoku(Board);

impl View for Sudoku {
    type V = Grid;

    closed spec fn view(&self) -> Grid {
        board_grid(self.0)
    }
}

impl Clone for Sudoku {
    fn clone(&self) -> (copy: Self)
        ensures
            copy == *self,
    {
        proof {
            use_type_invariant(self);
        }
        Sudoku(self.0)
    }
}

impl Default for Sudoku {
    fn default() -> (g: Self)
        ensures
            g@ == Grid::blank(),
    {
        Self::new()
    }
}

impl std::ops::Deref for Sudoku {
    type Target = Board;

    fn deref(&self) -> (board: &Board)
        ensures
            board_grid(*board) == self@,
    {
        &self.0
    }
}

impl std::ops::Index<(usize, usize)> for Sudoku {
    type Output = Cell;

    fn index(&self, index: (usize, usize)) -> (cell: &Cell)
        ensures
            cell@ == self@.at(pos(index)),
    {
        &self.0[index.0][index.1]
    }
}

impl vstd::std_specs::core::IndexSpecImpl<(usize, usize)> for Sudoku {
    open spec fn index_req(&self, index: &(usize, usize)) -> bool {
        index.0 < 9 && index.1 < 9
    }
}

impl Sudoku {
    /// Every board is well formed: its open squares admit exactly the
    /// digits that none of their fixed peers holds.
    #[verifier::type_invariant]
    pub open spec fn inv(self) -> bool {
        self@.wf()
    }

    /// The board with every square open to all nine digits.
    pub fn new() -> (g: Self)
        ensures
            g@ == Grid::blank(),
    {
        let board = [[Cell::Allowed([true; 9]); 9]; 9];
        proof {
            lemma_blank_wf();
            assert forall|p: Pos| in_grid(p) implies #[trigger] board_grid(board).at(p)
                == Grid::blank().at(p) by {
                assert(board[p.0][p.1]@->Open_0 =~= Set::new(|v: int| is_digit(v)));
            }
            lemma_same_squares(board_grid(board), Grid::blank());
        }
        Self(board)
    }

    /// Fixes the square at `index` to `value` and strikes `value` from its
    /// open peers. Fails, and changes nothing, where the square is fixed
    /// already or does not admit `value` any more.
    pub fn set(&mut self, index: (usize, usize), value: u8) -> (res: Result<(), ()>)
        requires
            index.0 < 9,
            index.1 < 9,
            1 <= value <= 9,
        ensures
            res is Ok <==> old(self)@.can_set(pos(index), value as int),
            res is Ok ==> final(self)@ == old(self)@.set(pos(index), value as int),
            res is Err ==> *final(self) == *old(self),
    {
        proof {
            use_type_invariant(&*self);
        }
        if let Cell::Allowed(p) = self.0[index.0][index.1] {
            if p[(value - 1) as usize] {
                let mut board = self.0;
                board[index.0][index.1] = Cell::Value(value);
                Self::update_peers_on_set(&mut board, index, value);
                proof {
                    let before = board_grid(self.0);
                    let after = before.set(pos(index), value as int);
                    lemma_set_wf(before, pos(index), value as int);
                    assert forall|q: Pos| in_grid(q) implies #[trigger] board_grid(board).at(q)
                        == after.at(q) by {}
                    lemma_same_squares(board_grid(board), after);
                }
                self.0 = board;
                Ok(())
            } else {
                Err(())
            }
        } else {
            Err(())
        }
    }

    /// The square at `index`.
    pub fn get(&self, index: (usize, usize)) -> (c: Cell)
        requires
            index.0 < 9,
            index.1 < 9,
        ensures
            c@ == self@.at(pos(index)),
    {
        self.0[index.0][index.1]
    }

    /// Strikes `value` from every open peer of `index`; fixed squares, and
    /// squares that are no peers of `index`, stay as they are.
    fn update_peers_on_set(board: &mut Board, index: (usize, usize), value: u8)
        requires
            index.0 < 9,
            index.1 < 9,
            1 <= value <= 9,
        ensures
            board_grid(*final(board)) == board_grid(*old(board)).strike_peers(
                pos(index),
                value as int,
            ),
    {
        let ghost before = board_grid(*board);
        let ghost p = pos(index);
        let ghost v = value as int;
        let peers = Self::peers(index);
        for k in 0..20usize
            invariant
                index.0 < 9,
                index.1 < 9,
                1 <= value <= 9,
                p == pos(index),
                v == value as int,
                forall|j: int| 0 <= j < 20 ==> pos(#[trigger] peers[j]) == nth_peer(p, j),
                forall|q: Pos|
                    in_grid(q) ==> #[trigger] board_grid(*board).at(q) == if are_peers(p, q)
                        && peer_index(p, q) < k {
                        before.square_after_strike(p, v, q)
                    } else {
                        before.at(q)
                    },
        {
            let peer = peers[k];
            let ghost t = pos(peer);
            let ghost prev = board_grid(*board);
            proof {
                lemma_nth_peer_is_peer(p, k as int);
                lemma_peer_is_nth(p, t);
                if peer_index(p, t) < k {
                    lemma_nth_peer_distinct(p, peer_index(p, t), k as int);
                }
                if peer_index(p, t) > k {
                    lemma_nth_peer_distinct(p, k as int, peer_index(p, t));
                }
                assert(prev.at(t) == before.at(t));
            }
            if let Cell::Allowed(mut flags) = board[peer.0][peer.1] {
                let ghost was = flags;
                flags[(value - 1) as usize] = false;
                proof {
                    assert(allowed_upto(flags, 9) =~= allowed_upto(was, 9).remove(v));
                }
                board[peer.0][peer.1] = Cell::Allowed(flags);
            }
            proof {
                assert forall|q: Pos| in_grid(q) implies #[trigger] board_grid(*board).at(q)
                    == if are_peers(p, q) && peer_index(p, q) < k + 1 {
                    before.square_after_strike(p, v, q)
                } else {
                    before.at(q)
                } by {
                    if q != t {
                        assert(board_grid(*board).at(q) == prev.at(q));
                        if are_peers(p, q) {
                            lemma_peer_is_nth(p, q);
                        }
                    }
                }
            }
        }
        proof {
            let after = before.strike_peers(p, v);
            assert forall|q: Pos| in_grid(q) implies #[trigger] board_grid(*board).at(q)
                == after.at(q) by {
                if are_peers(p, q) {
                    lemma_peer_is_nth(p, q);
                }
            }
            lemma_same_squares(board_grid(*board), after);
        }
    }

    /// The most constrained open square and the number of digits it still
    /// admits: of the open squares with the fewest digits left, the first in
    /// row-major order. `None` where every square is fixed.
    pub fn least_possibilities(&self) -> (found: Option<((usize, usize), usize)>)
        ensures
            found is None <==> self@.is_full(),
            found matches Some((index, count)) ==> {
                &&& index.0 < 9
                &&& index.1 < 9
                &&& self@.is_most_constrained(pos(index))
                &&& count == self@.at(pos(index)).choices()
            },
            found matches Some((index, count)) ==> self@.most_constrained() == Some(
                (pos(index), count as nat),
            ),
            found is None ==> self@.most_constrained() is None,
    {
        let mut min_count: usize = 10;
        let mut index: Option<(usize, usize)> = None;
        let mut i: usize = 0;
        'outer: while i < 9
            invariant_except_break
                i <= 9,
                min_count > 0,
                self.scanned(index, min_count, 9 * i),
            ensures
                self.scanned(index, min_count, 81),
            decreases 9 - i,
        {
            let mut j: usize = 0;
            while j < 9
                invariant
                    i < 9,
                    j <= 9,
                    min_count > 0,
                    self.scanned(index, min_count, 9 * i + j),
                decreases 9 - j,
            {
                if let Cell::Allowed(p) = self.0[i][j] {
                    let count = count_allowed(&p);
                    if count < min_count {
                        min_count = count;
                        index = Some((i, j));
                    }
                    if count == 0 {
                        break 'outer;
                    }
                }
                j += 1;
            }
            i += 1;
        }
        proof {
            if let Some(idx) = index {
                lemma_most_constrained_is(self@, pos(idx));
            } else {
                assert forall|p: Pos| !self@.is_most_constrained(p) by {
                    if self@.is_most_constrained(p) {
                        assert(self@.at(p).is_open());
                    }
                }
            }
        }
        match index {
            Some(i) => Some((i, min_count)),
            None => None,
        }
    }

    /// What a scan of the first `k` places has found: the best square so
    /// far with its count, or nothing and the count still at its start.
    spec fn scanned(self, index: Option<(usize, usize)>, min_count: usize, k: int) -> bool {
        match index {
            Some(idx) => {
                &&& idx.0 < 9
                &&& idx.1 < 9
                &&& self@.is_most_constrained_below(pos(idx), k)
                &&& min_count == self@.at(pos(idx)).choices()
            },
            None => min_count == 10 && self@.is_full_below(k),
        }
    }

    /// The twenty peers of `index`.
    pub fn peers(index: (usize, usize)) -> (list: [(usize, usize); 20])
        requires
            index.0 < 9,
            index.1 < 9,
        ensures
            forall|k: int| 0 <= k < 20 ==> pos(#[trigger] list[k]) == nth_peer(pos(index), k),
            forall|k: int|
                0 <= k < 20 ==> in_grid(pos(#[trigger] list[k])) && are_peers(
                    pos(index),
                    pos(list[k]),
                ),
            forall|j: int, k: int| 0 <= j < k < 20 ==> #[trigger] list[j] != #[trigger] list[k],
            forall|q: Pos|
                in_grid(q) && are_peers(pos(index), q) ==> 0 <= peer_index(pos(index), q) < 20
                    && pos(#[trigger] list[peer_index(pos(index), q)]) == q,
    {
        proof {
            let p = pos(index);
            assert forall|k: int| 0 <= k < 20 implies in_grid(#[trigger] nth_peer(p, k))
                && are_peers(p, nth_peer(p, k)) by {
                lemma_nth_peer_is_peer(p, k);
            }
            assert forall|j: int, k: int| 0 <= j < k < 20 implies #[trigger] nth_peer(p, j)
                != #[trigger] nth_peer(p, k) by {
                lemma_nth_peer_distinct(p, j, k);
            }
            assert forall|q: Pos| in_grid(q) && are_peers(p, q) implies 0 <= #[trigger] peer_index(
                p,
                q,
            ) < 20 && nth_peer(p, peer_index(p, q)) == q by {
                lemma_peer_is_nth(p, q);
            }
        }
        let mut peers = [index; 20];
        for i in 0..8usize
            invariant
                index.0 < 9,
                index.1 < 9,
                forall|k: int| 0 <= k < i ==> pos(#[trigger] peers[k]) == nth_peer(pos(index), k),
                forall|k: int|
                    8 <= k < 8 + i ==> pos(#[trigger] peers[k]) == nth_peer(pos(index), k),
        {
            peers[i] = (index.0, if i >= index.1 { i + 1 } else { i });
            peers[i + 8] = (if i >= index.0 { i + 1 } else { i }, index.1);
        }
        let top_left = ((index.0 / 3) * 3, (index.1 / 3) * 3);
        for i in 0..2usize
            invariant
                index.0 < 9,
                index.1 < 9,
                top_left.0 == (index.0 / 3) * 3,
                top_left.1 == (index.1 / 3) * 3,
                forall|k: int|
                    0 <= k < 16 + 2 * i ==> pos(#[trigger] peers[k]) == nth_peer(pos(index), k),
        {
            for j in 0..2usize
                invariant
                    index.0 < 9,
                    index.1 < 9,
                    i < 2,
                    top_left.0 == (index.0 / 3) * 3,
                top_left.1 == (index.1 / 3) * 3,
                    forall|k: int|
                        0 <= k < 16 + 2 * i + j ==> pos(#[trigger] peers[k]) == nth_peer(
                            pos(index),
                            k,
                        ),
            {
                peers[i * 2 + j + 16] = (
                    top_left.0 + ((index.0 % 3) + i + 1) % 3,
                    top_left.1 + ((index.1 % 3) + j + 1) % 3,
                );
            }
        }
        peers
    }
}

/// The number of digits that the flags admit.
fn count_allowed(flags: &[bool; 9]) -> (n: usize)
    ensures
        n == allowed_upto(*flags, 9).len(),
        allowed_upto(*flags, 9).finite(),
        n <= 9,
{
    let mut n: usize = 0;
    assert(allowed_upto(*flags, 0) =~= Set::empty());
    for k in 0..9usize
        invariant
            n <= k,
            allowed_upto(*flags, k as int).finite(),
            n == allowed_upto(*flags, k as int).len(),
    {
        if flags[k] {
            assert(allowed_upto(*flags, k + 1) =~= allowed_upto(*flags, k as int).insert(k + 1));
            n += 1;
        } else {
            assert(allowed_upto(*flags, k + 1) =~= allowed_upto(*flags, k as int));
        }
    }
    n
}

/// Two cells with the same model are the same cell.
pub proof fn lemma_cell_view_injective(a: Cell, b: Cell)
    requires
        a@ == b@,
    ensures
        a == b,
{
    match (a, b) {
        (Cell::Allowed(x), Cell::Allowed(y)) => {
            assert forall|i: int| 0 <= i < 9 implies x[i] == y[i] by {
                assert(allowed_upto(x, 9).contains(i + 1) == allowed_upto(y, 9).contains(i + 1));
            }
            assert(x =~= y);
        },
        _ => {},
    }
}

/// Two arrays of cells with the same model are the same array.
pub proof fn lemma_board_view_injective(a: Board, b: Board)
    requires
        board_grid(a) == board_grid(b),
    ensures
        a == b,
{
    assert forall|r: int| 0 <= r < 9 implies a[r] == b[r] by {
        assert forall|c: int| 0 <= c < 9 implies a[r][c] == b[r][c] by {
            assert(board_grid(a).rows[r][c] == a[r][c]@);
            assert(board_grid(b).rows[r][c] == b[r][c]@);
            lemma_cell_view_injective(a[r][c], b[r][c]);
        }
        assert(a[r] =~= b[r]);
    }
    assert(a =~= b);
}

/// Two boards with the same model are the same board.
pub proof fn lemma_view_injective(a: Sudoku, b: Sudoku)
    requires
        a@ == b@,
    ensures
        a == b,
{
    lemma_board_view_injective(a.0, b.0);
}

impl std::str::FromStr for Sudoku {
    type Err = ();

    /// The board that `parse` reads from `s`.
    fn from_str(s: &str) -> (res: Result<Self, ()>)
        ensures
            res is Ok <==> consistent(givens(s@)),
            res matches Ok(sudoku) ==> sudoku@ == board_of(givens(s@)),
    {
        Self::parse(s)
    }
}

impl Sudoku {
    /// Reads a board from text. Only the ASCII digits and the dot count,
    /// and of those the first 81: one for each square in row-major order. A
    /// digit from 1 to 9 fixes its square; `0` and `.` leave it open, as does
    /// a text that ends early. Fails where two peers are given the same
    /// digit.
    pub fn parse(s: &str) -> (res: Result<Self, ()>)
        ensures
            res is Ok <==> consistent(givens(s@)),
            res matches Ok(sudoku) ==> sudoku@ == board_of(givens(s@)),
    {
        let mut sudoku = Self::new();
        let valid_chars = square_chars(s);
        let count = if valid_chars.len() < 81 {
            valid_chars.len()
        } else {
            81
        };
        let ghost given = givens(s@);
        proof {
            lemma_board_of_nothing();
            assert(given.take(0) =~= Seq::empty());
        }
        for i in 0..count
            invariant
                valid_chars@ == kept(s@),
                given == givens(s@),
                count == given.len(),
                well_given(given),
                consistent(given.take(i as int)),
                sudoku@ == board_of(given.take(i as int)),
        {
            proof {
                lemma_board_of_next(given, i as int);
            }
            if let Some(v) = digit(valid_chars[i]) {
                let index = (i / 9, i % 9);
                sudoku.set(index, v)?;
            }
        }
        proof {
            assert(given.take(count as int) =~= given);
        }
        Ok(sudoku)
    }

    /// The board as text, in three bands of three rows between rules.
    pub fn render(&self) -> (out: String)
        ensures
            out@ == board_text(self@),
    {
        let mut s = String::new();
        proof {
            reveal_strlit("\n");
            reveal_strlit("| ");
            reveal_strlit(" ");
            reveal_strlit("|\n");
        }
        for i in 0..9usize
            invariant
                s@ == board_text_upto(self@, i as int),
                "\n"@ == seq!['\n'],
                "| "@ == seq!['|', ' '],
                " "@ == seq![' '],
                "|\n"@ == seq!['|', '\n'],
        {
            if i % 3 == 0 {
                s.append("+-------+-------+-------+");
                s.append("\n");
            }
            let ghost start = s@;
            for j in 0..9usize
                invariant
                    i < 9,
                    s@ == start + row_text_upto(self@, i as int, j as int),
                    "| "@ == seq!['|', ' '],
                    " "@ == seq![' '],
            {
                if j % 3 == 0 {
                    s.append("| ");
                }
                let cell = self.0[i][j].render();
                s.append(cell.as_str());
                s.append(" ");
                proof {
                    assert(self@.at((i as int, j as int)) == self.0[i as int][j as int]@);
                    assert(s@ =~= start + row_text_upto(self@, i as int, j + 1));
                }
            }
            s.append("|\n");
            proof {
                assert(s@ =~= board_text_upto(self@, i + 1));
            }
        }
        s.append("+-------+-------+-------+");
        s
    }
}

/// The text of one decimal digit.
fn digit_str(d: u8) -> (text: &'static str)
    requires
        d <= 9,
    ensures
        text@ == seq![digit_char(d as int)],
{
    proof {
        reveal_strlit("0");
        reveal_strlit("1");
        reveal_strlit("2");
        reveal_strlit("3");
        reveal_strlit("4");
        reveal_strlit("5");
        reveal_strlit("6");
        reveal_strlit("7");
        reveal_strlit("8");
        reveal_strlit("9");
    }
    let text = match d {
        0 => "0",
        1 => "1",
        2 => "2",
        3 => "3",
        4 => "4",
        5 => "5",
        6 => "6",
        7 => "7",
        8 => "8",
        _ => "9",
    };
    assert(text@ =~= seq![digit_char(d as int)]);
    text
}

impl Cell {
    /// The cell as text: the number where it holds one, a middle dot where
    /// it is open.
    pub fn render(&self) -> (out: String)
        ensures
            out@ == square_text(self@),
    {
        match self {
            Cell::Value(v) => {
                let v = *v;
                let mut out = String::new();
                if v >= 100 {
                    out.append(digit_str(v / 100));
                }
                if v >= 10 {
                    out.append(digit_str((v / 10) % 10));
                }
                out.append(digit_str(v % 10));
                proof {
                    reveal_with_fuel(decimal, 3);
                    assert(out@ =~= decimal(v as nat));
                }
                out
            },
            Cell::Allowed(_) => {
                proof {
                    reveal_strlit("\u{b7}");
                }
                let out = String::from_str("\u{b7}");
                assert(out@ =~= seq!['\u{b7}']);
                out
            },
        }
    }
}

} // verus!
