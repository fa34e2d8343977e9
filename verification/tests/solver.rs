use sudoku_solver::sudoku::{Cell, Sudoku};
use sudoku_solver::sudoku_solver::solve;

const CLASSIC: &str =
    "53..7....6..195....98....6.8...6...34..8.3..17...2...6.6....28....419..5....8..79";

fn digits(sudoku: &Sudoku) -> Vec<String> {
    let mut rows = Vec::new();
    for r in 0..9 {
        let mut row = String::new();
        for c in 0..9 {
            match sudoku.get((r, c)) {
                Cell::Value(v) => row.push_str(&format!("{}", v)),
                Cell::Allowed(_) => row.push('.'),
            }
        }
        rows.push(row);
    }
    rows
}

fn holds_each_digit_once(cells: &[u8]) -> bool {
    let mut seen = [0usize; 10];
    for v in cells {
        if *v < 1 || *v > 9 {
            return false;
        }
        seen[*v as usize] += 1;
    }
    seen[1..].iter().all(|n| *n == 1)
}

fn is_solved(sudoku: &Sudoku) -> bool {
    let mut grid = [[0u8; 9]; 9];
    for r in 0..9 {
        for c in 0..9 {
            match sudoku.get((r, c)) {
                Cell::Value(v) => grid[r][c] = v,
                Cell::Allowed(_) => return false,
            }
        }
    }
    for u in 0..9 {
        let row: Vec<u8> = (0..9).map(|k| grid[u][k]).collect();
        let column: Vec<u8> = (0..9).map(|k| grid[k][u]).collect();
        let square: Vec<u8> = (0..9).map(|k| grid[u / 3 * 3 + k / 3][u % 3 * 3 + k % 3]).collect();
        if !holds_each_digit_once(&row) || !holds_each_digit_once(&column)
            || !holds_each_digit_once(&square)
        {
            return false;
        }
    }
    true
}

fn keeps_givens(puzzle: &Sudoku, solved: &Sudoku) -> bool {
    for r in 0..9 {
        for c in 0..9 {
            if let Cell::Value(v) = puzzle.get((r, c)) {
                match solved.get((r, c)) {
                    Cell::Value(w) if w == v => {},
                    _ => return false,
                }
            }
        }
    }
    true
}

#[test]
fn classic_puzzle_solves_to_its_only_completion() {
    let sudoku = Sudoku::parse(CLASSIC).unwrap();
    let solved = solve(&sudoku).unwrap();
    let expected = vec![
        "534678912", "672195348", "198342567", "859761423", "426853791", "713924856",
        "961537284", "287419635", "345286179",
    ];
    assert_eq!(digits(&solved), expected);
    assert!(is_solved(&solved));
    assert!(keeps_givens(&sudoku, &solved));
}

#[test]
fn classic_puzzle_renders_solved() {
    let solved = solve(&Sudoku::parse(CLASSIC).unwrap()).unwrap();
    let expected = "\
+-------+-------+-------+
| 5 3 4 | 6 7 8 | 9 1 2 |
| 6 7 2 | 1 9 5 | 3 4 8 |
| 1 9 8 | 3 4 2 | 5 6 7 |
+-------+-------+-------+
| 8 5 9 | 7 6 1 | 4 2 3 |
| 4 2 6 | 8 5 3 | 7 9 1 |
| 7 1 3 | 9 2 4 | 8 5 6 |
+-------+-------+-------+
| 9 6 1 | 5 3 7 | 2 8 4 |
| 2 8 7 | 4 1 9 | 6 3 5 |
| 3 4 5 | 2 8 6 | 1 7 9 |
+-------+-------+-------+";
    assert_eq!(solved.render(), expected);
    assert!(!solved.render().contains('\u{b7}'));
}

#[test]
fn classic_puzzle_without_its_last_two_givens() {
    // Seventy-nine characters: the last two squares stay open, the puzzle
    // has several completions, and the search settles on the first it meets.
    let text = "53..7....6..195....98....6.8...6...34..8.3..17...2...6.6....28....419..5....8..";
    assert_eq!(text.len(), 79);
    let sudoku = Sudoku::parse(text).unwrap();
    assert!(matches!(sudoku.get((8, 7)), Cell::Allowed(_)));
    assert!(matches!(sudoku.get((8, 8)), Cell::Allowed(_)));
    let solved = solve(&sudoku).unwrap();
    assert!(is_solved(&solved));
    assert!(keeps_givens(&sudoku, &solved));
    let rows = digits(&solved);
    assert!(rows[0].starts_with("534678"));
    assert_eq!(rows[0], "534678192");
}

#[test]
fn blank_board_solves_to_a_fixed_board() {
    let sudoku = Sudoku::parse(&".".repeat(81)).unwrap();
    let solved = solve(&sudoku).unwrap();
    assert!(is_solved(&solved));
    let expected = vec![
        "123456789", "456789123", "789123456", "231674895", "875912364", "694538217",
        "317265948", "542897631", "968341572",
    ];
    assert_eq!(digits(&solved), expected);
    let again = solve(&Sudoku::new()).unwrap();
    assert_eq!(digits(&again), expected);
}

#[test]
fn solved_board_solves_to_itself() {
    let solved = solve(&Sudoku::parse(CLASSIC).unwrap()).unwrap();
    let again = solve(&solved).unwrap();
    assert_eq!(digits(&again), digits(&solved));
}

#[test]
fn board_with_an_empty_square_has_no_solution() {
    // 1 to 8 in the first row and 9 below its last square: nothing is left
    // for (0, 8).
    let mut sudoku = Sudoku::new();
    for c in 0..8 {
        sudoku.set((0, c), (c + 1) as u8).unwrap();
    }
    sudoku.set((5, 8), 9).unwrap();
    assert!(solve(&sudoku).is_none());
}

#[test]
fn text_with_a_row_forced_to_repeat_has_no_solution() {
    let text = "12345678.........9";
    let sudoku = Sudoku::parse(text).unwrap();
    assert!(solve(&sudoku).is_none());
}

#[test]
fn board_whose_dead_end_shows_only_in_the_search_has_no_solution() {
    // The last two squares of the first row both admit 9 and nothing else:
    // no square is empty at first, yet one of them must end up empty.
    let text = "\
        1234567..\
        .........\
        .........\
        .........\
        .......8.\
        .........\
        .........\
        ........8\
        .........";
    let sudoku = Sudoku::parse(text).unwrap();
    assert_eq!(sudoku.least_possibilities(), Some(((0, 7), 1)));
    assert!(solve(&sudoku).is_none());
}

#[test]
fn solving_a_clone_gives_the_same_result() {
    let sudoku = Sudoku::parse(CLASSIC).unwrap();
    let copy = sudoku.clone();
    let a = solve(&sudoku).unwrap();
    let b = solve(&copy).unwrap();
    assert_eq!(digits(&a), digits(&b));
    assert_eq!(a.render(), b.render());

    let mut dead = Sudoku::new();
    for c in 0..8 {
        dead.set((0, c), (c + 1) as u8).unwrap();
    }
    dead.set((5, 8), 9).unwrap();
    assert!(solve(&dead.clone()).is_none());
    assert!(solve(&dead).is_none());
}

#[test]
fn solve_leaves_its_argument_as_it_was() {
    let sudoku = Sudoku::parse(CLASSIC).unwrap();
    let before = sudoku.render();
    let _ = solve(&sudoku);
    assert_eq!(sudoku.render(), before);
}

#[test]
fn solve_tries_digits_in_ascending_order() {
    // One given only: the first open square takes the least digit left.
    let mut sudoku = Sudoku::new();
    sudoku.set((0, 0), 1).unwrap();
    let solved = solve(&sudoku).unwrap();
    assert!(is_solved(&solved));
    assert!(digits(&solved)[0].starts_with("12"));
}

#[test]
fn a_harder_puzzle_is_solved() {
    let text = "4.....8.5.3..........7......2.....6.....8.4......1.......6.3.7.5..2.....1.4......";
    let sudoku = Sudoku::parse(text).unwrap();
    let solved = solve(&sudoku).unwrap();
    assert!(is_solved(&solved));
    assert!(keeps_givens(&sudoku, &solved));
    let expected = vec![
        "417369825", "632158947", "958724316", "825437169", "791586432", "346912758",
        "289643571", "573291684", "164875293",
    ];
    assert_eq!(digits(&solved), expected);
}
