use sudoku_solver::sudoku::{Cell, Sudoku};

fn allowed(sudoku: &Sudoku, index: (usize, usize)) -> [bool; 9] {
    match sudoku.get(index) {
        Cell::Allowed(flags) => flags,
        Cell::Value(v) => panic!("square {:?} is fixed to {}", index, v),
    }
}

fn value(sudoku: &Sudoku, index: (usize, usize)) -> u8 {
    match sudoku.get(index) {
        Cell::Value(v) => v,
        Cell::Allowed(_) => panic!("square {:?} is open", index),
    }
}

fn same_board(a: &Sudoku, b: &Sudoku) -> bool {
    for r in 0..9 {
        for c in 0..9 {
            let same = match (a.get((r, c)), b.get((r, c))) {
                (Cell::Value(x), Cell::Value(y)) => x == y,
                (Cell::Allowed(x), Cell::Allowed(y)) => x == y,
                _ => false,
            };
            if !same {
                return false;
            }
        }
    }
    true
}

fn is_peer(p: (usize, usize), q: (usize, usize)) -> bool {
    p != q && (p.0 == q.0 || p.1 == q.1 || (p.0 / 3 == q.0 / 3 && p.1 / 3 == q.1 / 3))
}

#[test]
fn new_board_is_open_to_every_digit() {
    let sudoku = Sudoku::new();
    for r in 0..9 {
        for c in 0..9 {
            assert_eq!(allowed(&sudoku, (r, c)), [true; 9]);
        }
    }
}

#[test]
fn default_board_is_the_new_board() {
    assert!(same_board(&Sudoku::default(), &Sudoku::new()));
}

#[test]
fn set_fixes_the_square() {
    let mut sudoku = Sudoku::new();
    assert_eq!(sudoku.set((4, 7), 3), Ok(()));
    assert_eq!(value(&sudoku, (4, 7)), 3);
}

#[test]
fn set_strikes_the_digit_from_all_twenty_peers_and_no_other_square() {
    let mut sudoku = Sudoku::new();
    sudoku.set((4, 7), 3).unwrap();
    let mut struck = 0;
    for r in 0..9 {
        for c in 0..9 {
            if (r, c) == (4, 7) {
                continue;
            }
            let flags = allowed(&sudoku, (r, c));
            let mut expected = [true; 9];
            if is_peer((4, 7), (r, c)) {
                expected[2] = false;
                struck += 1;
            }
            assert_eq!(flags, expected, "square ({}, {})", r, c);
        }
    }
    assert_eq!(struck, 20);
}

#[test]
fn set_in_a_corner_strikes_row_column_and_box() {
    let mut sudoku = Sudoku::new();
    sudoku.set((0, 0), 5).unwrap();
    assert!(!allowed(&sudoku, (0, 8))[4]);
    assert!(!allowed(&sudoku, (8, 0))[4]);
    assert!(!allowed(&sudoku, (1, 1))[4]);
    assert!(!allowed(&sudoku, (2, 2))[4]);
    assert!(allowed(&sudoku, (3, 3))[4]);
    assert!(allowed(&sudoku, (1, 3))[4]);
    assert!(allowed(&sudoku, (3, 1))[4]);
}

#[test]
fn set_on_a_fixed_square_fails_and_changes_nothing() {
    let mut sudoku = Sudoku::new();
    sudoku.set((2, 3), 4).unwrap();
    sudoku.set((6, 6), 9).unwrap();
    let before = sudoku.clone();
    for v in 1..=9 {
        assert_eq!(sudoku.set((2, 3), v), Err(()));
        assert!(same_board(&sudoku, &before));
        assert_eq!(sudoku.render(), before.render());
    }
}

#[test]
fn set_of_a_struck_digit_fails_and_changes_nothing() {
    let mut sudoku = Sudoku::new();
    sudoku.set((0, 0), 5).unwrap();
    let before = sudoku.clone();
    assert_eq!(sudoku.set((0, 8), 5), Err(()));
    assert_eq!(sudoku.set((8, 0), 5), Err(()));
    assert_eq!(sudoku.set((2, 1), 5), Err(()));
    assert!(same_board(&sudoku, &before));
}

#[test]
fn set_of_the_same_digit_outside_the_peers_succeeds() {
    let mut sudoku = Sudoku::new();
    sudoku.set((0, 0), 5).unwrap();
    assert_eq!(sudoku.set((1, 3), 5), Ok(()));
    assert_eq!(sudoku.set((3, 1), 5), Ok(()));
}

#[test]
fn set_does_not_propagate_further() {
    // (0, 8) is left with the single digit 9, yet stays open, and 9 stays
    // allowed in its peers.
    let mut sudoku = Sudoku::new();
    for c in 0..8 {
        sudoku.set((0, c), (c + 1) as u8).unwrap();
    }
    let mut only_nine = [false; 9];
    only_nine[8] = true;
    assert_eq!(allowed(&sudoku, (0, 8)), only_nine);
    assert!(allowed(&sudoku, (5, 8))[8]);
    assert!(allowed(&sudoku, (1, 7))[8]);
}

#[test]
fn set_can_empty_a_peer() {
    let mut sudoku = Sudoku::new();
    for c in 0..8 {
        sudoku.set((0, c), (c + 1) as u8).unwrap();
    }
    sudoku.set((5, 8), 9).unwrap();
    assert_eq!(allowed(&sudoku, (0, 8)), [false; 9]);
}

#[test]
fn fixed_peers_are_left_alone() {
    let mut sudoku = Sudoku::new();
    sudoku.set((0, 0), 5).unwrap();
    sudoku.set((0, 1), 6).unwrap();
    assert_eq!(value(&sudoku, (0, 0)), 5);
    assert_eq!(value(&sudoku, (0, 1)), 6);
    let flags = allowed(&sudoku, (0, 2));
    assert!(!flags[4] && !flags[5]);
    assert_eq!(flags.iter().filter(|b| **b).count(), 7);
}

#[test]
fn index_and_deref_read_the_same_squares_as_get() {
    let mut sudoku = Sudoku::new();
    sudoku.set((3, 5), 8).unwrap();
    assert!(matches!(sudoku[(3, 5)], Cell::Value(8)));
    assert!(matches!(sudoku[(3, 4)], Cell::Allowed(_)));
    let rows: &[[Cell; 9]; 9] = &sudoku;
    assert!(matches!(rows[3][5], Cell::Value(8)));
    assert_eq!(rows.len(), 9);
}

#[test]
fn peers_of_the_top_left_corner() {
    let peers = Sudoku::peers((0, 0));
    let expected = [
        (0, 1), (0, 2), (0, 3), (0, 4), (0, 5), (0, 6), (0, 7), (0, 8),
        (1, 0), (2, 0), (3, 0), (4, 0), (5, 0), (6, 0), (7, 0), (8, 0),
        (1, 1), (1, 2), (2, 1), (2, 2),
    ];
    assert_eq!(peers, expected);
}

#[test]
fn peers_of_a_square_in_the_middle() {
    let peers = Sudoku::peers((4, 7));
    let expected = [
        (4, 0), (4, 1), (4, 2), (4, 3), (4, 4), (4, 5), (4, 6), (4, 8),
        (0, 7), (1, 7), (2, 7), (3, 7), (5, 7), (6, 7), (7, 7), (8, 7),
        (5, 8), (5, 6), (3, 8), (3, 6),
    ];
    assert_eq!(peers, expected);
}

#[test]
fn peers_are_the_twenty_squares_of_row_column_and_box() {
    for r in 0..9 {
        for c in 0..9 {
            let peers = Sudoku::peers((r, c));
            for (k, p) in peers.iter().enumerate() {
                assert!(is_peer((r, c), *p), "{:?} of {:?}", p, (r, c));
                assert!(!peers[..k].contains(p));
            }
            for qr in 0..9 {
                for qc in 0..9 {
                    assert_eq!(peers.contains(&(qr, qc)), is_peer((r, c), (qr, qc)));
                }
            }
        }
    }
}

#[test]
fn peers_are_symmetric() {
    for r in 0..9 {
        for c in 0..9 {
            for p in Sudoku::peers((r, c)) {
                assert!(Sudoku::peers(p).contains(&(r, c)));
            }
        }
    }
}

#[test]
fn least_possibilities_of_a_new_board_is_the_first_square() {
    assert_eq!(Sudoku::new().least_possibilities(), Some(((0, 0), 9)));
}

#[test]
fn least_possibilities_breaks_ties_in_row_major_order() {
    let mut sudoku = Sudoku::new();
    sudoku.set((4, 4), 1).unwrap();
    // twenty squares are down to eight digits; the first of them is (0, 4)
    assert_eq!(sudoku.least_possibilities(), Some(((0, 4), 8)));
    let mut other = Sudoku::new();
    other.set((0, 0), 5).unwrap();
    assert_eq!(other.least_possibilities(), Some(((0, 1), 8)));
}

#[test]
fn least_possibilities_finds_the_single_choice_at_the_end_of_a_row() {
    let mut sudoku = Sudoku::new();
    for c in 0..8 {
        sudoku.set((0, c), (c + 1) as u8).unwrap();
    }
    assert_eq!(sudoku.least_possibilities(), Some(((0, 8), 1)));
}

#[test]
fn least_possibilities_finds_the_single_choice_at_the_top_of_a_column() {
    let mut sudoku = Sudoku::new();
    for r in 1..9 {
        sudoku.set((r, 4), r as u8).unwrap();
    }
    assert_eq!(sudoku.least_possibilities(), Some(((0, 4), 1)));
}

#[test]
fn least_possibilities_finds_the_single_choice_in_the_last_square() {
    let mut sudoku = Sudoku::new();
    for c in 0..8 {
        sudoku.set((8, c), (c + 1) as u8).unwrap();
    }
    assert_eq!(sudoku.least_possibilities(), Some(((8, 8), 1)));
}

#[test]
fn least_possibilities_prefers_fewer_choices_over_an_earlier_place() {
    let mut sudoku = Sudoku::new();
    sudoku.set((0, 0), 1).unwrap();
    sudoku.set((7, 3), 2).unwrap();
    sudoku.set((8, 6), 3).unwrap();
    // (7, 6) .. (7, 8) lose 2 and 3, (8, 3) .. (8, 5) lose 2 and 3; (8, 0) loses 1 and 3
    sudoku.set((6, 0), 4).unwrap();
    // (7, 0) has lost 1, 2, 4; no other square has lost three digits
    assert_eq!(sudoku.least_possibilities(), Some(((7, 0), 6)));
}

#[test]
fn least_possibilities_reports_an_empty_square() {
    let mut sudoku = Sudoku::new();
    for c in 0..8 {
        sudoku.set((0, c), (c + 1) as u8).unwrap();
    }
    sudoku.set((5, 8), 9).unwrap();
    assert_eq!(sudoku.least_possibilities(), Some(((0, 8), 0)));
}

#[test]
fn least_possibilities_reports_the_first_empty_square() {
    let mut sudoku = Sudoku::new();
    for c in 0..8 {
        sudoku.set((8, c), (c + 1) as u8).unwrap();
    }
    sudoku.set((3, 8), 9).unwrap();
    for c in 0..8 {
        sudoku.set((4, c), ((c + 1) % 8 + 1) as u8).unwrap();
    }
    // (4, 8) and (8, 8) are both empty
    assert_eq!(sudoku.least_possibilities(), Some(((4, 8), 0)));
}

#[test]
fn least_possibilities_of_a_full_board_is_none() {
    let rows = [
        "534678912", "672195348", "198342567", "859761423", "426853791", "713924856",
        "961537284", "287419635", "345286179",
    ];
    let mut sudoku = Sudoku::new();
    for (r, row) in rows.iter().enumerate() {
        for (c, ch) in row.bytes().enumerate() {
            sudoku.set((r, c), ch - b'0').unwrap();
        }
    }
    assert_eq!(sudoku.least_possibilities(), None);
}

#[test]
fn clone_does_not_follow_later_changes() {
    let mut sudoku = Sudoku::new();
    sudoku.set((0, 0), 5).unwrap();
    let copy = sudoku.clone();
    sudoku.set((1, 1), 6).unwrap();
    assert!(matches!(copy.get((1, 1)), Cell::Allowed(_)));
    assert!(allowed(&copy, (1, 2))[5]);
    assert_eq!(value(&copy, (0, 0)), 5);
}
