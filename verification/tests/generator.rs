use sudoku::{App, Cell};

/// A fixed solved grid: cell (i, j) holds ((3*(i%3) + i/3 + j) % 9) + 1.
/// Rows are shifts of 1..9, the shift amounts are distinct across rows and
/// cover {0,3,6} within each band, so rows, columns and regions are valid.
fn make_solved() -> App {
    let mut app = App::default();
    for i in 0..9usize {
        for j in 0..9usize {
            let v = ((3 * (i % 3) + i / 3 + j) % 9 + 1) as u8;
            app.set_number(i * 9 + j, Some(v));
        }
    }
    app
}

fn text_of(app: &App) -> String {
    String::from_utf8(app.as_text()).unwrap()
}

#[test]
fn poke_holes() {
    println!("Started test");
    let mut app = App::default();
    app.fill_puzzle();
    println!("{:?}", text_of(&app));
    app.poke_holes(55);
    println!("{:?}", text_of(&app));
    println!("Removed {:?}", app.removed_values);
    println!("{}", text_of(&app));
}

#[test]
fn filler_produces_valid_grid() {
    let mut app = App::default();
    assert!(app.fill_puzzle());
    assert!(app.is_solved());
    for d in 1..=9u8 {
        for r in 0..9usize {
            let n = (0..9usize).filter(|&c| app.number_at(r * 9 + c) == Some(d)).count();
            assert_eq!(n, 1);
        }
        for c in 0..9usize {
            let n = (0..9usize).filter(|&r| app.number_at(r * 9 + c) == Some(d)).count();
            assert_eq!(n, 1);
        }
        for e in 0..9usize {
            let n = (0..9usize)
                .filter(|&k| {
                    let r = (e / 3) * 3 + k / 3;
                    let c = (e % 3) * 3 + k % 3;
                    app.number_at(r * 9 + c) == Some(d)
                })
                .count();
            assert_eq!(n, 1);
        }
    }
}

#[test]
fn filler_varies_across_runs() {
    let mut grids: Vec<String> = Vec::new();
    for _ in 0..3 {
        let mut app = App::default();
        assert!(app.fill_puzzle());
        grids.push(text_of(&app));
    }
    assert!(grids[0] != grids[1] || grids[1] != grids[2]);
}

#[test]
fn zero_holes_leaves_grid_unchanged() {
    let mut app = make_solved();
    let before = text_of(&app);
    app.poke_holes(0);
    assert_eq!(text_of(&app), before);
    assert_eq!(app.removed_values, Some(Vec::new()));
}

#[test]
fn excessive_hole_count_terminates() {
    let solved = make_solved();
    let mut app = make_solved();
    app.poke_holes(100);
    let removed = app.removed_values.clone().unwrap();
    assert!(removed.len() <= 81);
    let empties = (0..81usize).filter(|&i| app.number_at(i).is_none()).count();
    assert_eq!(empties, removed.len());
    // The removed digits are exactly the old contents of the now-empty cells.
    let mut cleared: Vec<u8> = (0..81usize)
        .filter(|&i| app.number_at(i).is_none())
        .map(|i| solved.number_at(i).unwrap())
        .collect();
    let mut recorded = removed.clone();
    cleared.sort_unstable();
    recorded.sort_unstable();
    assert_eq!(cleared, recorded);
}

#[test]
fn poked_puzzle_keeps_unique_solution() {
    let mut app = App::default();
    assert!(app.fill_puzzle());
    app.poke_holes(40);
    let removed = app.removed_values.clone().unwrap();
    assert_eq!(removed.len(), 40);
    let empties = (0..81usize).filter(|&i| app.number_at(i).is_none()).count();
    assert_eq!(empties, 40);
    for d in &removed {
        assert!((1..=9).contains(d));
    }
    let mut trial = app.duplicate();
    assert_eq!(trial.solve(0, 0), 1);
}

#[test]
fn checker_accepts_valid_full_grid() {
    let app = make_solved();
    assert!(app.is_solved());
    assert!(app.is_solved());
}

#[test]
fn checker_rejects_duplicate() {
    let mut app = make_solved();
    assert_eq!(app.number_at(1), Some(2));
    app.set_number(0, Some(2));
    assert!(!app.is_solved());
}

#[test]
fn checker_rejects_incomplete_grid() {
    let mut app = make_solved();
    app.set_number(40, None);
    assert!(!app.is_solved());
}

#[test]
fn safety_check_ignores_own_position() {
    let mut app = App::default();
    app.set_number(0, Some(5));
    let same_spot = Cell { number: Some(5), row: 0, column: 0 };
    assert!(app.check_row(&same_spot));
    assert!(app.check_column(&same_spot));
    assert!(app.check_region(&same_spot));
    assert!(app.safe_to_place(&same_spot));
}

#[test]
fn safety_check_sees_each_group() {
    let mut app = App::default();
    app.set_number(0, Some(5));
    let row_clash = Cell { number: Some(5), row: 0, column: 4 };
    assert!(!app.check_row(&row_clash));
    assert!(!app.safe_to_place(&row_clash));
    let column_clash = Cell { number: Some(5), row: 4, column: 0 };
    assert!(!app.check_column(&column_clash));
    assert!(!app.safe_to_place(&column_clash));
    let region_clash = Cell { number: Some(5), row: 1, column: 1 };
    assert!(!app.check_region(&region_clash));
    assert!(!app.safe_to_place(&region_clash));
    let no_clash = Cell { number: Some(6), row: 0, column: 4 };
    assert!(app.safe_to_place(&no_clash));
    let far_cell = Cell { number: Some(5), row: 4, column: 4 };
    assert!(app.safe_to_place(&far_cell));
}

#[test]
fn oracle_counts_one_on_full_grid() {
    let mut app = make_solved();
    assert_eq!(app.solve(0, 0), 1);
    assert!(app.is_solved());
}

#[test]
fn oracle_accepts_determined_cell() {
    let mut app = make_solved();
    let value = app.number_at(0);
    assert_eq!(value, Some(1));
    app.set_number(0, None);
    let mut trial = app.duplicate();
    assert_eq!(trial.solve(0, 0), 1);
    assert_eq!(app.number_at(0), None);
}

#[test]
fn oracle_rejects_symmetric_cell() {
    let mut app = make_solved();
    // The six cells at rows 0-1, columns 0, 3 and 6 hold the cycle
    // 1,4,7 / 4,7,1: once all six are cleared the digits can also be
    // rotated, so this is an ambiguous set.  Clearing five of them keeps
    // the puzzle unique; poking the sixth makes it ambiguous.
    for &p in &[0usize, 3, 6, 9, 12] {
        app.set_number(p, None);
    }
    let mut trial = app.duplicate();
    assert_eq!(trial.solve(0, 0), 1);
    let kept = app.number_at(15);
    assert_eq!(kept, Some(1));
    app.set_number(15, None);
    let mut trial = app.duplicate();
    assert_eq!(trial.solve(0, 0), 2);
    app.set_number(15, kept);
    assert_eq!(app.number_at(15), Some(1));
    let mut trial = app.duplicate();
    assert_eq!(trial.solve(0, 0), 1);
}

#[test]
fn oracle_returns_zero_on_contradictory_grid() {
    let mut app = make_solved();
    // Overwrite the leading 1 with a 2: the first row now holds two 2s,
    // so no valid completion exists and the oracle must report zero.
    app.set_number(0, Some(2));
    assert!(!app.is_consistent());
    assert_eq!(app.solve(0, 0), 0);
    // The same with an empty cell elsewhere: still zero, not a count of
    // fillings that ignore the conflict.
    app.set_number(40, None);
    assert_eq!(app.solve(0, 0), 0);
}

#[test]
fn consistency_check_ignores_empty_cells() {
    let mut app = App::default();
    assert!(app.is_consistent());
    app.set_number(0, Some(3));
    assert!(app.is_consistent());
    app.set_number(1, Some(3));
    assert!(!app.is_consistent());
    assert!(make_solved().is_consistent());
}

#[test]
fn grid_dump_format() {
    let mut app = App::default();
    let empty_text = text_of(&app);
    let expected: String = ".".repeat(81) + "\n";
    assert_eq!(empty_text, expected);
    app.set_number(0, Some(5));
    app.set_number(80, Some(9));
    let text = text_of(&app);
    assert_eq!(text.as_bytes()[0], b'5');
    assert_eq!(text.as_bytes()[80], b'9');
    assert_eq!(text.as_bytes()[1], b'.');
    assert_eq!(text.as_bytes()[81], b'\n');
}

#[test]
fn cell_position_arithmetic() {
    let cell = Cell { number: None, row: 2, column: 3 };
    assert_eq!(cell.get_position(), 21);
    let corner = Cell { number: None, row: 8, column: 8 };
    assert_eq!(corner.get_position(), 80);
}

#[test]
fn scan_finds_first_empty_cell() {
    let mut app = App::default();
    let first = app.scan_next_cell().unwrap();
    assert_eq!((first.row, first.column), (0, 0));
    assert!(first.number.is_none());
    app.set_number(0, Some(1));
    let second = app.scan_next_cell().unwrap();
    assert_eq!((second.row, second.column), (0, 1));
    let mut full = make_solved();
    assert!(full.scan_next_cell().is_none());
}

#[test]
fn next_empty_cell_scans_given_cells() {
    let mut app = App::default();
    app.set_number(0, Some(1));
    app.set_number(10, Some(2));
    let a = Cell { number: Some(1), row: 0, column: 0 };
    let b = Cell { number: Some(2), row: 1, column: 1 };
    let c = Cell { number: None, row: 2, column: 2 };
    let d = Cell { number: None, row: 3, column: 3 };
    // Two cells sit on empty positions; the first in the given order wins.
    let found = app.next_empty_cell(vec![&a, &b, &c, &d]).unwrap();
    assert_eq!((found.row, found.column), (2, 2));
    let found = app.next_empty_cell(vec![&a, &d, &c]).unwrap();
    assert_eq!((found.row, found.column), (3, 3));
    let none = app.next_empty_cell(vec![&a, &b]);
    assert!(none.is_none());
}

#[test]
fn set_and_read_cells() {
    let mut app = App::default();
    assert_eq!(app.number_at(17), None);
    app.set_number(17, Some(4));
    assert_eq!(app.number_at(17), Some(4));
    app.set_number(17, None);
    assert_eq!(app.number_at(17), None);
    assert!(app.is_well_formed());
}

#[test]
fn filler_extends_partial_grid() {
    let mut app = App::default();
    app.set_number(0, Some(7));
    app.set_number(44, Some(3));
    assert!(app.fill_puzzle());
    assert!(app.is_solved());
    assert_eq!(app.number_at(0), Some(7));
    assert_eq!(app.number_at(44), Some(3));
}

#[test]
fn filler_fails_on_contradictory_grid() {
    let mut app = make_solved();
    // Clear the 4 at row 1, column 0, then plant another 4 inside its
    // region: no digit fits the cleared cell any more, so no solved
    // completion exists and the filler must report failure.
    app.set_number(9, None);
    app.set_number(20, Some(4));
    let before = text_of(&app);
    assert!(!app.fill_puzzle());
    assert_eq!(text_of(&app), before);
}
