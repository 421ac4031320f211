use sudoku::board::{Field, Sudoku, ALL_OPTIONS};

/// The digit of a known valid solved grid at (row, column).
fn solved_digit(r: usize, c: usize) -> u8 {
    ((r * 3 + r / 3 + c) % 9 + 1) as u8
}

#[test]
fn default_cell_is_fully_undetermined() {
    assert_eq!(Field::default(), Field::Empty { options: ALL_OPTIONS });
}

#[test]
fn new_board_all_candidates() {
    let s = Sudoku::new();
    for y in 0..9 {
        for x in 0..9 {
            assert_eq!(s.get(y, x), Field::Empty { options: ALL_OPTIONS });
        }
    }
}

#[test]
fn new_board_completion_is_zero() {
    // Completion boundary: an all-candidates board has numerator 0 and
    // denominator 81, so the ratio is exactly 0, not a division artefact.
    let s = Sudoku::new();
    assert_eq!(s.completion_ratio_tenths(), 0);
}

#[test]
fn apply_overwrites_one_cell_only() {
    let mut s = Sudoku::new();
    s.apply(2, 3, Field::Number { number: 6, auto: false });
    assert_eq!(s.get(2, 3), Field::Number { number: 6, auto: false });
    for y in 0..9 {
        for x in 0..9 {
            if (y, x) != (2, 3) {
                assert_eq!(s.get(y, x), Field::Empty { options: ALL_OPTIONS });
            }
        }
    }
}

#[test]
fn completion_all_manual_is_zero() {
    // The explicit zero-denominator rule: with every cell entered by the
    // user there is nothing left to deduce, and the ratio is defined as 0.
    let mut s = Sudoku::new();
    for r in 0..9 {
        for c in 0..9 {
            s.apply(r, c, Field::Number { number: solved_digit(r, c), auto: false });
        }
    }
    assert_eq!(s.completion_ratio_tenths(), 0);
}

#[test]
fn completion_counts_auto_over_non_manual() {
    // 80 manual digits and one rederived auto digit: 1 / (81 - 80) = 100.0%.
    let mut s = Sudoku::new();
    for r in 0..9 {
        for c in 0..9 {
            s.apply(r, c, Field::Number { number: solved_digit(r, c), auto: false });
        }
    }
    s.update(4, 4, Field::Empty { options: ALL_OPTIONS });
    assert_eq!(s.get(4, 4), Field::Number { number: solved_digit(4, 4), auto: true });
    assert_eq!(s.completion_ratio_tenths(), 1000);
}

#[test]
fn reset_keeps_manual_and_clears_the_rest() {
    // Reset totality: after the reset phase every cell is either the
    // user's own digit, unchanged, or the full candidate set.
    let mut s = Sudoku::new();
    s.update(0, 0, Field::Number { number: 5, auto: false });
    s.update(0, 1, Field::Number { number: 3, auto: false });
    s.update(0, 4, Field::Number { number: 7, auto: false });
    s.reset();
    for y in 0..9 {
        for x in 0..9 {
            let f = s.get(y, x);
            match (y, x) {
                (0, 0) => assert_eq!(f, Field::Number { number: 5, auto: false }),
                (0, 1) => assert_eq!(f, Field::Number { number: 3, auto: false }),
                (0, 4) => assert_eq!(f, Field::Number { number: 7, auto: false }),
                _ => assert_eq!(f, Field::Empty { options: ALL_OPTIONS }),
            }
        }
    }
}
