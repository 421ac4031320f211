use sudoku::board::{Field, Sudoku, ALL_OPTIONS};

/// The digit of a known valid solved grid at (row, column).
fn solved_digit(r: usize, c: usize) -> u8 {
    ((r * 3 + r / 3 + c) % 9 + 1) as u8
}

/// Does the candidate mask still list `digit`?
fn mask_lists(options: u16, digit: u8) -> bool {
    (options >> (digit - 1)) & 1 == 1
}

/// A snapshot of all 81 cells for whole-board comparisons.
fn cells(s: &Sudoku) -> Vec<Field> {
    let mut v = Vec::new();
    for y in 0..9 {
        for x in 0..9 {
            v.push(s.get(y, x));
        }
    }
    v
}

#[test]
fn row_edits_narrow_row_candidates() {
    // Manually set row 0 to 5,3,_,_,7,_,_,_,_: every empty cell of row 0
    // must drop 5, 3 and 7 from its candidates.
    let mut s = Sudoku::new();
    s.update(0, 0, Field::Number { number: 5, auto: false });
    s.update(0, 1, Field::Number { number: 3, auto: false });
    s.update(0, 4, Field::Number { number: 7, auto: false });
    for x in [2, 3, 5, 6, 7, 8] {
        match s.get(0, x) {
            Field::Empty { options } => {
                assert!(!mask_lists(options, 5));
                assert!(!mask_lists(options, 3));
                assert!(!mask_lists(options, 7));
                assert!(mask_lists(options, 1));
            }
            other => panic!("row 0 cell {} should stay undetermined, got {:?}", x, other),
        }
    }
    assert_eq!(s.completion_ratio_tenths(), 0);
}

#[test]
fn cleared_cell_of_solved_grid_rederives_by_naked_single() {
    // A full legal solved grid with one cell cleared: all eight peers plus
    // the box fix the remaining value, so one naked-single sweep restores
    // it as a deduced digit.
    let mut s = Sudoku::new();
    for r in 0..9 {
        for c in 0..9 {
            s.apply(r, c, Field::Number { number: solved_digit(r, c), auto: false });
        }
    }
    s.update(4, 4, Field::Empty { options: ALL_OPTIONS });
    assert_eq!(s.get(4, 4), Field::Number { number: solved_digit(4, 4), auto: true });
    for r in 0..9 {
        for c in 0..9 {
            if (r, c) != (4, 4) {
                assert_eq!(s.get(r, c), Field::Number { number: solved_digit(r, c), auto: false });
            }
        }
    }
}

#[test]
fn hidden_single_places_where_naked_single_cannot() {
    // Digit 4 is excluded from every row-0 cell except (0,0) by manual 4s
    // in the row's peer columns and boxes, never in row 0 itself.  Cell
    // (0,0) keeps all nine candidates, so only the hidden-single rule can
    // place the 4 there.
    let mut s = Sudoku::new();
    s.update(3, 1, Field::Number { number: 4, auto: false });
    s.update(6, 2, Field::Number { number: 4, auto: false });
    s.update(1, 4, Field::Number { number: 4, auto: false });
    s.update(2, 7, Field::Number { number: 4, auto: false });
    assert_eq!(s.get(0, 0), Field::Number { number: 4, auto: true });
}

#[test]
fn reduce_fieldwise_places_naked_single() {
    let mut s = Sudoku::new();
    for c in 0..8 {
        s.apply(0, c, Field::Number { number: (c + 1) as u8, auto: false });
    }
    let updated = s.reduce_fieldwise();
    assert!(updated);
    assert_eq!(s.get(0, 8), Field::Number { number: 9, auto: true });
}

#[test]
fn reduce_fieldwise_reports_no_progress_on_empty_board() {
    let mut s = Sudoku::new();
    assert!(!s.reduce_fieldwise());
    assert_eq!(s.get(5, 5), Field::Empty { options: ALL_OPTIONS });
}

#[test]
fn reduce_numberwise_places_hidden_single() {
    // Same position as the hidden-single scenario, driven rule by rule:
    // one naked-single sweep narrows the masks without placing anything,
    // then the hidden-single pass places the 4.
    let mut s = Sudoku::new();
    s.apply(3, 1, Field::Number { number: 4, auto: false });
    s.apply(6, 2, Field::Number { number: 4, auto: false });
    s.apply(1, 4, Field::Number { number: 4, auto: false });
    s.apply(2, 7, Field::Number { number: 4, auto: false });
    assert!(!s.reduce_fieldwise());
    let updated = s.reduce_numberwise();
    assert!(updated);
    assert_eq!(s.get(0, 0), Field::Number { number: 4, auto: true });
}

#[test]
fn reduce_numberwise_reports_no_progress_on_empty_board() {
    let mut s = Sudoku::new();
    assert!(!s.reduce_fieldwise());
    assert!(!s.reduce_numberwise());
}

#[test]
fn conflicting_manual_peers_force_contradiction() {
    // Column 0 rows 1..=8 hold every digit but 5, so (0,0) can only be 5.
    // Two manual 5s in mutually peer cells of row 0 then exhaust (0,0)'s
    // candidate set: it must surface as a contradiction marker.
    let mut s = Sudoku::new();
    let digits: [u8; 8] = [1, 2, 3, 4, 6, 7, 8, 9];
    for (i, d) in digits.iter().enumerate() {
        s.update(i + 1, 0, Field::Number { number: *d, auto: false });
    }
    s.update(0, 4, Field::Number { number: 5, auto: false });
    s.update(0, 7, Field::Number { number: 5, auto: false });
    assert_eq!(s.get(0, 0), Field::Invalid);
    assert_eq!(s.get(0, 4), Field::Number { number: 5, auto: false });
    assert_eq!(s.get(0, 7), Field::Number { number: 5, auto: false });
    assert_eq!(s.get(1, 0), Field::Number { number: 1, auto: false });
}

#[test]
fn propagation_is_idempotent_on_converged_board() {
    // Running the engine again with no intervening edit changes nothing.
    let mut s = Sudoku::new();
    s.update(3, 1, Field::Number { number: 4, auto: false });
    s.update(6, 2, Field::Number { number: 4, auto: false });
    s.update(1, 4, Field::Number { number: 4, auto: false });
    s.update(2, 7, Field::Number { number: 4, auto: false });
    let before = cells(&s);
    s.update_options();
    assert_eq!(before, cells(&s));
    s.update_options();
    assert_eq!(before, cells(&s));
}

#[test]
fn manual_entry_survives_unrelated_edit() {
    let mut s = Sudoku::new();
    s.update(2, 3, Field::Number { number: 6, auto: false });
    s.update(7, 7, Field::Number { number: 2, auto: false });
    s.update(8, 0, Field::Empty { options: ALL_OPTIONS });
    assert_eq!(s.get(2, 3), Field::Number { number: 6, auto: false });
    assert_eq!(s.get(7, 7), Field::Number { number: 2, auto: false });
}

#[test]
fn hidden_single_placements_in_one_pass_apply_together() {
    // The pass collects its placements first and applies them after the
    // whole scan, exactly as specified.  Here columns 0 and 8 each hold a
    // hidden single for digit 4 in the same pass -- at (0,0) and (0,8) --
    // and both are applied, although the two cells are peers: the engine
    // never backtracks, it only re-derives.
    let mut s = Sudoku::new();
    s.update(1, 0, Field::Number { number: 1, auto: false });
    s.update(2, 0, Field::Number { number: 2, auto: false });
    s.update(1, 8, Field::Number { number: 3, auto: false });
    s.update(2, 8, Field::Number { number: 5, auto: false });
    s.update(4, 1, Field::Number { number: 4, auto: false });
    s.update(7, 2, Field::Number { number: 4, auto: false });
    s.update(5, 7, Field::Number { number: 4, auto: false });
    s.update(8, 6, Field::Number { number: 4, auto: false });
    assert_eq!(s.get(0, 0), Field::Number { number: 4, auto: true });
    assert_eq!(s.get(0, 8), Field::Number { number: 4, auto: true });
}
