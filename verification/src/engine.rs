//! The propagation engine: after an edit, every cell not entered by the user
//! is reset to the full candidate set, and two deduction rules are applied to
//! a fixpoint.
//!
//! Rule A (naked single) sweeps the grid cell by cell, column-major, and
//! recomputes each undetermined cell's candidate mask from the fixed digits
//! in its row, column and box; a singleton mask promotes the cell to a
//! deduced digit, an empty mask marks a contradiction.  Rule B (hidden
//! single) scans each column, row and box for a digit listed by exactly one
//! undetermined cell of the group, collects those placements, and applies
//! them after the whole scan.

use vstd::prelude::*;

use crate::board::{
    Field, Sudoku, ALL_OPTIONS, cell_idx, cell_wf, first_opt, first_opt_from, in_grid, is_auto,
    is_manual, is_number, opt, opt_count,
};

verus! {

/// Does cell `f` hold digit `d + 1` as a fixed digit (of either kind)?
pub open spec fn has_digit(f: Field, d: int) -> bool {
    match f {
        Field::Number { number, .. } => number == d + 1,
        _ => false,
    }
}

/// Is `f` an undetermined cell that still lists digit `d + 1`?
pub open spec fn lists(f: Field, d: int) -> bool {
    match f {
        Field::Empty { options } => opt(options, d),
        _ => false,
    }
}

/// Digit `d + 1` is fixed in one of the first `n` cells of row `y`.
pub open spec fn row_excl(b: Seq<Field>, y: int, d: int, n: int) -> bool {
    exists|j: int| 0 <= j < n && has_digit(#[trigger] b[cell_idx(y, j)], d)
}

/// Digit `d + 1` is fixed in one of the first `n` cells of column `x`.
pub open spec fn col_excl(b: Seq<Field>, x: int, d: int, n: int) -> bool {
    exists|j: int| 0 <= j < n && has_digit(#[trigger] b[cell_idx(j, x)], d)
}

/// Digit `d + 1` is fixed in one of the first `n` cells (row-major) of the
/// box whose top-left corner is (`y0`, `x0`).
pub open spec fn box_excl(b: Seq<Field>, y0: int, x0: int, d: int, n: int) -> bool {
    exists|i: int| 0 <= i < n && has_digit(#[trigger] b[cell_idx(y0 + i / 3, x0 + i % 3)], d)
}

/// Digit `d + 1` is fixed somewhere in the row, column or box of (`y`, `x`),
/// and so is no longer a candidate there.
pub open spec fn excluded(b: Seq<Field>, y: int, x: int, d: int) -> bool {
    row_excl(b, y, d, 9) || col_excl(b, x, d, 9) || box_excl(b, y - y % 3, x - x % 3, d, 9)
}

/// The candidate mask of (`y`, `x`) recomputed from scratch, restricted to
/// digits below `n`.
pub open spec fn fresh_mask_upto(b: Seq<Field>, y: int, x: int, n: nat) -> u16
    decreases n,
{
    if n == 0 {
        0u16
    } else {
        let rest = fresh_mask_upto(b, y, x, (n - 1) as nat);
        if excluded(b, y, x, n - 1) {
            rest
        } else {
            rest | (1u16 << ((n - 1) as u16))
        }
    }
}

/// The candidate mask of (`y`, `x`) recomputed from scratch: exactly the
/// digits not fixed among the cell's row, column and box.
pub open spec fn fresh_mask(b: Seq<Field>, y: int, x: int) -> u16 {
    fresh_mask_upto(b, y, x, 9)
}

/// What the naked-single rule leaves at (`y`, `x`): fixed digits stay;
/// an undetermined cell gets its fresh mask, and is promoted to a deduced
/// digit when one candidate remains, or marked `Invalid` when none does.
pub open spec fn rule_a_cell(b: Seq<Field>, y: int, x: int) -> Field {
    match b[cell_idx(y, x)] {
        Field::Empty { .. } => {
            let m = fresh_mask(b, y, x);
            if opt_count(m, 9) == 0 {
                Field::Invalid
            } else if opt_count(m, 9) == 1 {
                Field::Number { number: (first_opt(m) + 1) as u8, auto: true }
            } else {
                Field::Empty { options: m }
            }
        },
        f => f,
    }
}

/// The row visited at step `k` of the sweep (columns outermost).
pub open spec fn sweep_y(k: int) -> int {
    k % 9
}

/// The column visited at step `k` of the sweep.
pub open spec fn sweep_x(k: int) -> int {
    k / 9
}

/// The board after the first `k` steps of one naked-single sweep.  Each step
/// rewrites one cell in place, so later cells see digits placed earlier in
/// the same sweep.
pub open spec fn rule_a_upto(b: Seq<Field>, k: nat) -> Seq<Field>
    decreases k,
{
    if k == 0 {
        b
    } else {
        let prev = rule_a_upto(b, (k - 1) as nat);
        let y = sweep_y(k - 1);
        let x = sweep_x(k - 1);
        prev.update(cell_idx(y, x), rule_a_cell(prev, y, x))
    }
}

/// The board after one full naked-single sweep.
pub open spec fn rule_a(b: Seq<Field>) -> Seq<Field> {
    rule_a_upto(b, 81)
}

/// Step `k` of the sweep promotes its cell to a deduced digit.
pub open spec fn promo_at(b: Seq<Field>, k: int) -> bool {
    0 <= k < 81 && {
        let prev = rule_a_upto(b, k as nat);
        let y = sweep_y(k);
        let x = sweep_x(k);
        (prev[cell_idx(y, x)] matches Field::Empty { .. }) && opt_count(fresh_mask(prev, y, x), 9)
            == 1
    }
}

/// Some step below `k` of the sweep promoted a cell.
pub open spec fn rule_a_progress_upto(b: Seq<Field>, k: int) -> bool {
    exists|j: int| 0 <= j < k && #[trigger] promo_at(b, j)
}

/// The sweep placed at least one digit: what the sweep reports as progress.
/// Narrowing a mask or marking a contradiction does not count.
pub open spec fn rule_a_progress(b: Seq<Field>) -> bool {
    rule_a_progress_upto(b, 81)
}

// ------------------------------------------------------------------
// Bit-level facts about candidate masks.

pub(crate) proof fn lemma_bit_or(m: u16, k: u16, d: u16)
    by (bit_vector)
    requires
        k < 9,
        d < 9,
    ensures
        ((m | (1u16 << k)) >> d) & 1u16 == (if d == k {
            1u16
        } else {
            (m >> d) & 1u16
        }),
{
}

pub(crate) proof fn lemma_bit_or_le(m: u16, k: u16)
    by (bit_vector)
    requires
        k < 9,
        m <= 0x1ffu16,
    ensures
        (m | (1u16 << k)) <= 0x1ffu16,
{
}

pub(crate) proof fn lemma_bit_clear(m: u16, k: u16, d: u16)
    by (bit_vector)
    requires
        k < 9,
        d < 9,
    ensures
        ((m & !(1u16 << k)) >> d) & 1u16 == (if d == k {
            0u16
        } else {
            (m >> d) & 1u16
        }),
{
}

pub(crate) proof fn lemma_bit_clear_le(m: u16, k: u16)
    by (bit_vector)
    requires
        m <= 0x1ffu16,
    ensures
        (m & !(1u16 << k)) <= 0x1ffu16,
{
}

pub(crate) proof fn lemma_bit_zero(d: u16)
    by (bit_vector)
    requires
        d < 9,
    ensures
        ((0u16 >> d) & 1u16) == 0u16,
{
}

pub(crate) proof fn lemma_bit_full(d: u16)
    by (bit_vector)
    requires
        d < 9,
    ensures
        ((0x1ffu16 >> d) & 1u16) == 1u16,
{
}

pub(crate) proof fn lemma_bit01(m: u16, d: u16)
    by (bit_vector)
    ensures
        ((m >> d) & 1u16) == 0u16 || ((m >> d) & 1u16) == 1u16,
{
}

pub(crate) proof fn lemma_mask_ext(m1: u16, m2: u16)
    by (bit_vector)
    requires
        m1 <= 0x1ffu16,
        m2 <= 0x1ffu16,
        (m1 >> 0u16) & 1u16 == (m2 >> 0u16) & 1u16,
        (m1 >> 1u16) & 1u16 == (m2 >> 1u16) & 1u16,
        (m1 >> 2u16) & 1u16 == (m2 >> 2u16) & 1u16,
        (m1 >> 3u16) & 1u16 == (m2 >> 3u16) & 1u16,
        (m1 >> 4u16) & 1u16 == (m2 >> 4u16) & 1u16,
        (m1 >> 5u16) & 1u16 == (m2 >> 5u16) & 1u16,
        (m1 >> 6u16) & 1u16 == (m2 >> 6u16) & 1u16,
        (m1 >> 7u16) & 1u16 == (m2 >> 7u16) & 1u16,
        (m1 >> 8u16) & 1u16 == (m2 >> 8u16) & 1u16,
    ensures
        m1 == m2,
{
}

/// Two masks over the nine low bits that list the same digits are equal.
pub(crate) proof fn lemma_mask_ext_opt(m1: u16, m2: u16)
    requires
        m1 <= ALL_OPTIONS,
        m2 <= ALL_OPTIONS,
        forall|d: int| 0 <= d < 9 ==> (opt(m1, d) <==> opt(m2, d)),
    ensures
        m1 == m2,
{
    assert forall|d: u16| d < 9 implies ((m1 >> d) & 1u16) == ((m2 >> d) & 1u16) by {
        lemma_bit01(m1, d);
        lemma_bit01(m2, d);
        assert(opt(m1, d as int) <==> opt(m2, d as int));
    }
    assert((m1 >> 0u16) & 1u16 == (m2 >> 0u16) & 1u16);
    assert((m1 >> 1u16) & 1u16 == (m2 >> 1u16) & 1u16);
    assert((m1 >> 2u16) & 1u16 == (m2 >> 2u16) & 1u16);
    assert((m1 >> 3u16) & 1u16 == (m2 >> 3u16) & 1u16);
    assert((m1 >> 4u16) & 1u16 == (m2 >> 4u16) & 1u16);
    assert((m1 >> 5u16) & 1u16 == (m2 >> 5u16) & 1u16);
    assert((m1 >> 6u16) & 1u16 == (m2 >> 6u16) & 1u16);
    assert((m1 >> 7u16) & 1u16 == (m2 >> 7u16) & 1u16);
    assert((m1 >> 8u16) & 1u16 == (m2 >> 8u16) & 1u16);
    lemma_mask_ext(m1, m2);
}

/// The fresh mask lists exactly the digits below `n` not excluded by a
/// fixed digit the cell sees.
pub(crate) proof fn lemma_fresh_mask_upto(b: Seq<Field>, y: int, x: int, n: nat)
    requires
        n <= 9,
    ensures
        fresh_mask_upto(b, y, x, n) <= ALL_OPTIONS,
        forall|d: int|
            #[trigger] opt(fresh_mask_upto(b, y, x, n), d) <==> (0 <= d < n && !excluded(
                b,
                y,
                x,
                d,
            )),
    decreases n,
{
    if n == 0 {
        assert forall|d: int| !opt(fresh_mask_upto(b, y, x, 0), d) by {
            if 0 <= d < 9 {
                lemma_bit_zero(d as u16);
            }
        }
    } else {
        lemma_fresh_mask_upto(b, y, x, (n - 1) as nat);
        let rest = fresh_mask_upto(b, y, x, (n - 1) as nat);
        let m = fresh_mask_upto(b, y, x, n);
        if excluded(b, y, x, n - 1) {
            assert(m == rest);
            assert forall|d: int|
                opt(m, d) <==> (0 <= d < n && !excluded(b, y, x, d)) by {
                assert(opt(rest, d) <==> (0 <= d < n - 1 && !excluded(b, y, x, d)));
                if d == n - 1 {
                    assert(!opt(rest, d));
                }
            }
        } else {
            lemma_bit_or_le(rest, (n - 1) as u16);
            assert(m == (rest | (1u16 << ((n - 1) as u16))));
            assert forall|d: int|
                opt(m, d) <==> (0 <= d < n && !excluded(b, y, x, d)) by {
                assert(opt(rest, d) <==> (0 <= d < n - 1 && !excluded(b, y, x, d)));
                if 0 <= d < 9 {
                    lemma_bit_or(rest, (n - 1) as u16, d as u16);
                    if d == n - 1 {
                        assert(((m >> (d as u16)) & 1u16) == 1u16);
                    } else {
                        assert(((m >> (d as u16)) & 1u16) == ((rest >> (d as u16)) & 1u16));
                        assert(opt(m, d) <==> opt(rest, d));
                    }
                }
            }
        }
    }
}

// ------------------------------------------------------------------
// Counting and least-candidate facts.

/// An empty count means no digit below `n` is listed.
pub(crate) proof fn lemma_count_zero(m: u16, n: nat)
    requires
        opt_count(m, n) == 0,
    ensures
        forall|d: int| 0 <= d < n ==> !opt(m, d),
    decreases n,
{
    if n > 0 {
        lemma_count_zero(m, (n - 1) as nat);
    }
}

/// `first_opt_from` finds the least listed digit at or above `i`.
pub(crate) proof fn lemma_first_from(m: u16, i: nat)
    requires
        i <= 9,
    ensures
        i <= first_opt_from(m, i) <= 9,
        first_opt_from(m, i) < 9 ==> opt(m, first_opt_from(m, i)),
        forall|d: int| i <= d < first_opt_from(m, i) ==> !opt(m, d),
    decreases 9 - i,
{
    if i < 9 && !opt(m, i as int) {
        lemma_first_from(m, i + 1);
    }
}

/// A positive count below `n` pins the least listed digit below `n`.
pub(crate) proof fn lemma_count_pos(m: u16, n: nat)
    requires
        n <= 9,
        opt_count(m, n) > 0,
    ensures
        0 <= first_opt(m) < n,
        opt(m, first_opt(m)),
    decreases n,
{
    if opt_count(m, (n - 1) as nat) > 0 {
        lemma_count_pos(m, (n - 1) as nat);
    } else {
        lemma_count_zero(m, (n - 1) as nat);
        lemma_first_from(m, 0);
        let f = first_opt(m);
        if f < n - 1 {
            assert(opt(m, f));
        }
        assert(f <= n - 1) by {
            if f > n - 1 {
                assert(!opt(m, n - 1));
            }
        }
    }
}


// ------------------------------------------------------------------
// Arithmetic facts about the sweep and box coordinates.

pub(crate) proof fn lemma_sweep_coords(x: int, y: int)
    by (nonlinear_arith)
    requires
        0 <= x < 9,
        0 <= y < 9,
    ensures
        (9 * x + y) % 9 == y,
        (9 * x + y) / 9 == x,
{
}

pub(crate) proof fn lemma_box_coords(bj: int, bk: int)
    by (nonlinear_arith)
    requires
        0 <= bj < 3,
        0 <= bk < 3,
    ensures
        (3 * bj + bk) / 3 == bj,
        (3 * bj + bk) % 3 == bk,
{
}

/// Clearing bit `k` removes exactly digit `k + 1` from the mask.
pub(crate) proof fn lemma_clear_digit(m0: u16, m1: u16, k: u16)
    requires
        k < 9,
        m1 == (m0 & !(1u16 << k)),
        m0 <= ALL_OPTIONS,
    ensures
        m1 <= ALL_OPTIONS,
        forall|d: int| 0 <= d < 9 ==> (#[trigger] opt(m1, d) <==> (opt(m0, d) && d != k)),
{
    lemma_bit_clear_le(m0, k);
    assert forall|d: int| 0 <= d < 9 implies (#[trigger] opt(m1, d) <==> (opt(m0, d) && d != k)) by {
        lemma_bit_clear(m0, k, d as u16);
    }
}

// ------------------------------------------------------------------
// One-step unfoldings of the bounded existentials.

pub(crate) proof fn lemma_row_excl_step(b: Seq<Field>, y: int, d: int, n: int)
    requires
        0 <= n,
    ensures
        row_excl(b, y, d, n + 1) == (row_excl(b, y, d, n) || has_digit(b[cell_idx(y, n)], d)),
{
    if row_excl(b, y, d, n + 1) {
        let j = choose|j: int| 0 <= j < n + 1 && has_digit(#[trigger] b[cell_idx(y, j)], d);
        if j < n {
            assert(row_excl(b, y, d, n));
        }
    }
    if row_excl(b, y, d, n) {
        let j = choose|j: int| 0 <= j < n && has_digit(#[trigger] b[cell_idx(y, j)], d);
        assert(0 <= j < n + 1 && has_digit(b[cell_idx(y, j)], d));
    }
    if has_digit(b[cell_idx(y, n)], d) {
        assert(0 <= n < n + 1 && has_digit(b[cell_idx(y, n)], d));
    }
}

pub(crate) proof fn lemma_col_excl_step(b: Seq<Field>, x: int, d: int, n: int)
    requires
        0 <= n,
    ensures
        col_excl(b, x, d, n + 1) == (col_excl(b, x, d, n) || has_digit(b[cell_idx(n, x)], d)),
{
    if col_excl(b, x, d, n + 1) {
        let j = choose|j: int| 0 <= j < n + 1 && has_digit(#[trigger] b[cell_idx(j, x)], d);
        if j < n {
            assert(col_excl(b, x, d, n));
        }
    }
    if col_excl(b, x, d, n) {
        let j = choose|j: int| 0 <= j < n && has_digit(#[trigger] b[cell_idx(j, x)], d);
        assert(0 <= j < n + 1 && has_digit(b[cell_idx(j, x)], d));
    }
    if has_digit(b[cell_idx(n, x)], d) {
        assert(0 <= n < n + 1 && has_digit(b[cell_idx(n, x)], d));
    }
}

pub(crate) proof fn lemma_box_excl_step(b: Seq<Field>, y0: int, x0: int, d: int, n: int)
    requires
        0 <= n,
    ensures
        box_excl(b, y0, x0, d, n + 1) == (box_excl(b, y0, x0, d, n) || has_digit(
            b[cell_idx(y0 + n / 3, x0 + n % 3)],
            d,
        )),
{
    if box_excl(b, y0, x0, d, n + 1) {
        let i = choose|i: int|
            0 <= i < n + 1 && has_digit(#[trigger] b[cell_idx(y0 + i / 3, x0 + i % 3)], d);
        if i < n {
            assert(box_excl(b, y0, x0, d, n));
        }
    }
    if box_excl(b, y0, x0, d, n) {
        let i = choose|i: int|
            0 <= i < n && has_digit(#[trigger] b[cell_idx(y0 + i / 3, x0 + i % 3)], d);
        assert(0 <= i < n + 1 && has_digit(b[cell_idx(y0 + i / 3, x0 + i % 3)], d));
    }
    if has_digit(b[cell_idx(y0 + n / 3, x0 + n % 3)], d) {
        assert(0 <= n < n + 1 && has_digit(b[cell_idx(y0 + n / 3, x0 + n % 3)], d));
    }
}

pub(crate) proof fn lemma_progress_step(b: Seq<Field>, k: int)
    requires
        0 <= k,
    ensures
        rule_a_progress_upto(b, k + 1) == (rule_a_progress_upto(b, k) || promo_at(b, k)),
{
    if rule_a_progress_upto(b, k + 1) {
        let j = choose|j: int| 0 <= j < k + 1 && #[trigger] promo_at(b, j);
        if j < k {
            assert(rule_a_progress_upto(b, k));
        }
    }
    if rule_a_progress_upto(b, k) {
        let j = choose|j: int| 0 <= j < k && #[trigger] promo_at(b, j);
        assert(0 <= j < k + 1 && promo_at(b, j));
    }
    if promo_at(b, k) {
        assert(0 <= k < k + 1 && promo_at(b, k));
    }
}


impl Sudoku {
    /// One full naked-single sweep, cell by cell with columns outermost,
    /// recomputing each undetermined cell in place so that later cells see
    /// digits placed earlier in the same sweep.  Returns whether the sweep
    /// placed at least one digit.
    #[verifier::loop_isolation(false)]
    #[verifier::rlimit(100)]
    pub fn reduce_fieldwise(&mut self) -> (updated: bool)
        requires
            old(self).wf(),
        ensures
            final(self).wf(),
            final(self)@ == rule_a(old(self)@),
            updated == rule_a_progress(old(self)@),
    {
        let ghost b0 = self@;
        let mut updated = false;
        for x in 0..9usize
            invariant
                self.wf(),
                self@ == rule_a_upto(b0, (9 * x) as nat),
                updated == rule_a_progress_upto(b0, 9 * x),
        {
            for y in 0..9usize
                invariant
                    self.wf(),
                    self@ == rule_a_upto(b0, (9 * x + y) as nat),
                    updated == rule_a_progress_upto(b0, 9 * x + y),
            {
                let ghost k: int = 9 * (x as int) + (y as int);
                let ghost prev = self@;
                proof {
                    lemma_sweep_coords(x as int, y as int);
                    assert(sweep_y(k) == y as int && sweep_x(k) == x as int);
                }
                let i = y * 9 + x;
                let f = self.field[i];
                match f {
                    Field::Empty { .. } => {
                        let y0 = y - y % 3;
                        let x0 = x - x % 3;
                        let mut m: u16 = ALL_OPTIONS;
                        proof {
                            assert forall|d: int| 0 <= d < 9 implies #[trigger] opt(m, d) by {
                                lemma_bit_full(d as u16);
                            }
                        }
                        for j in 0..9usize
                            invariant
                                m <= ALL_OPTIONS,
                                forall|d: int|
                                    0 <= d < 9 ==> (#[trigger] opt(m, d) <==> !(row_excl(
                                        prev,
                                        y as int,
                                        d,
                                        j as int,
                                    ) || col_excl(prev, x as int, d, j as int))),
                        {
                            let ghost m_in = m;
                            match self.field[y * 9 + j] {
                                Field::Number { number, .. } => {
                                    m = m & !(1u16 << ((number - 1) as u16));
                                },
                                _ => {},
                            }
                            let ghost m_row = m;
                            proof {
                                let rc = prev[cell_idx(y as int, j as int)];
                                match rc {
                                        Field::Number { number, .. } => {
                                            lemma_clear_digit(m_in, m_row, (number - 1) as u16);
                                        },
                                        _ => {},
                                }
                                assert forall|d: int|
                                    0 <= d < 9 implies (#[trigger] opt(m_row, d) <==> (opt(
                                        m_in,
                                        d,
                                    ) && !has_digit(rc, d))) by {}
                            }
                            match self.field[j * 9 + x] {
                                Field::Number { number, .. } => {
                                    m = m & !(1u16 << ((number - 1) as u16));
                                },
                                _ => {},
                            }
                            proof {
                                let cc = prev[cell_idx(j as int, x as int)];
                                match cc {
                                        Field::Number { number, .. } => {
                                            lemma_clear_digit(m_row, m, (number - 1) as u16);
                                        },
                                        _ => {},
                                }
                                assert forall|d: int|
                                    0 <= d < 9 implies (#[trigger] opt(m, d) <==> (opt(m_row, d)
                                        && !has_digit(cc, d))) by {}
                                assert forall|d: int|
                                    0 <= d < 9 implies (#[trigger] opt(m, d) <==> !(row_excl(
                                        prev,
                                        y as int,
                                        d,
                                        j as int + 1,
                                    ) || col_excl(prev, x as int, d, j as int + 1))) by {
                                    lemma_row_excl_step(prev, y as int, d, j as int);
                                    lemma_col_excl_step(prev, x as int, d, j as int);
                                }
                            }
                        }
                        for bj in 0..3usize
                            invariant
                                m <= ALL_OPTIONS,
                                forall|d: int|
                                    0 <= d < 9 ==> (#[trigger] opt(m, d) <==> !(row_excl(
                                        prev,
                                        y as int,
                                        d,
                                        9,
                                    ) || col_excl(prev, x as int, d, 9) || box_excl(
                                        prev,
                                        y0 as int,
                                        x0 as int,
                                        d,
                                        3 * bj,
                                    ))),
                        {
                            for bk in 0..3usize
                                invariant
                                    m <= ALL_OPTIONS,
                                    forall|d: int|
                                        0 <= d < 9 ==> (#[trigger] opt(m, d) <==> !(row_excl(
                                            prev,
                                            y as int,
                                            d,
                                            9,
                                        ) || col_excl(prev, x as int, d, 9) || box_excl(
                                            prev,
                                            y0 as int,
                                            x0 as int,
                                            d,
                                            3 * bj + bk,
                                        ))),
                            {
                                let ghost m_in = m;
                                let ghost t: int = 3 * (bj as int) + (bk as int);
                                match self.field[(y0 + bj) * 9 + (x0 + bk)] {
                                    Field::Number { number, .. } => {
                                        m = m & !(1u16 << ((number - 1) as u16));
                                    },
                                    _ => {},
                                }
                                proof {
                                    lemma_box_coords(bj as int, bk as int);
                                    let bc = prev[cell_idx(y0 as int + t / 3, x0 as int + t % 3)];
                                    match bc {
                                            Field::Number { number, .. } => {
                                                lemma_clear_digit(m_in, m, (number - 1) as u16);
                                            },
                                            _ => {},
                                    }
                                    assert forall|d: int|
                                        0 <= d < 9 implies (#[trigger] opt(m, d) <==> (opt(
                                            m_in,
                                            d,
                                        ) && !has_digit(bc, d))) by {}
                                    assert forall|d: int|
                                        0 <= d < 9 implies (#[trigger] opt(m, d) <==> !(row_excl(
                                            prev,
                                            y as int,
                                            d,
                                            9,
                                        ) || col_excl(prev, x as int, d, 9) || box_excl(
                                            prev,
                                            y0 as int,
                                            x0 as int,
                                            d,
                                            t + 1,
                                        ))) by {
                                        lemma_box_excl_step(prev, y0 as int, x0 as int, d, t);
                                    }
                                }
                            }
                        }
                        proof {
                            assert forall|d: int|
                                0 <= d < 9 implies (#[trigger] opt(m, d) <==> !excluded(
                                    prev,
                                    y as int,
                                    x as int,
                                    d,
                                )) by {
                                assert(y0 as int == (y as int) - (y as int) % 3);
                                assert(x0 as int == (x as int) - (x as int) % 3);
                            }
                            lemma_fresh_mask_upto(prev, y as int, x as int, 9);
                            lemma_mask_ext_opt(m, fresh_mask(prev, y as int, x as int));
                            assert(m == fresh_mask(prev, y as int, x as int));
                        }
                        let mut number: Option<u8> = None;
                        let mut solved = true;
                        for j in 0..9usize
                            invariant
                                opt_count(m, j as nat) == 0 ==> number is None && solved,
                                opt_count(m, j as nat) >= 1 ==> number == Some(
                                    ((first_opt(m) + 1) as u8),
                                ) && 0 <= first_opt(m) < j,
                                solved <==> opt_count(m, j as nat) <= 1,
                        {
                            if ((m >> (j as u16)) & 1u16) == 1u16 {
                                proof {
                                    assert(opt(m, j as int));
                                    if opt_count(m, j as nat) == 0 {
                                        lemma_count_zero(m, j as nat);
                                        lemma_first_from(m, 0);
                                        assert(first_opt(m) == j as int);
                                    }
                                }
                                match number {
                                    Some(_) => {
                                        solved = false;
                                    },
                                    None => {
                                        number = Some((j + 1) as u8);
                                    },
                                }
                            } else {
                                proof {
                                    assert(!opt(m, j as int));
                                }
                            }
                        }
                        if solved {
                            match number {
                                Some(nn) => {
                                    self.field[i] = Field::Number { number: nn, auto: true };
                                    updated = true;
                                    proof {
                                        assert(opt_count(m, 9) == 1);
                                        assert(promo_at(b0, k));
                                    }
                                },
                                None => {
                                    self.field[i] = Field::Invalid;
                                    proof {
                                        assert(opt_count(m, 9) == 0);
                                        assert(!promo_at(b0, k));
                                    }
                                },
                            }
                        } else {
                            self.field[i] = Field::Empty { options: m };
                            proof {
                                assert(opt_count(m, 9) >= 2);
                                assert(!promo_at(b0, k));
                            }
                        }
                        proof {
                            assert(self@[cell_idx(y as int, x as int)] == rule_a_cell(
                                prev,
                                y as int,
                                x as int,
                            ));
                            assert(self@ == rule_a_upto(b0, (k + 1) as nat));
                            assert forall|ii: int| 0 <= ii < 81 implies cell_wf(
                                #[trigger] self@[ii],
                            ) by {
                                if ii != cell_idx(y as int, x as int) {
                                    assert(cell_wf(prev[ii]));
                                }
                            }
                        }
                    },
                    _ => {
                        proof {
                            assert(rule_a_cell(prev, y as int, x as int) == prev[cell_idx(
                                y as int,
                                x as int,
                            )]);
                            assert(prev.update(
                                cell_idx(y as int, x as int),
                                prev[cell_idx(y as int, x as int)],
                            ) =~= prev);
                            assert(self@ == rule_a_upto(b0, (k + 1) as nat));
                            assert(!promo_at(b0, k));
                        }
                    },
                }
                proof {
                    lemma_progress_step(b0, k);
                }
            }
        }
        updated
    }
}


// ------------------------------------------------------------------
// Rule B: hidden singles.
//
// The 27 groups are numbered in the order the scan visits them: columns
// 0..9, then rows 9..18, then boxes 18..27 (box `g` has its left band at
// column `3 * ((g - 18) / 3)` and its top band at row `3 * ((g - 18) % 3)`).

/// The row of the `i`-th cell of group `g` (cells of a box in row-major
/// order).
pub open spec fn gcell_y(g: int, i: int) -> int {
    if g < 9 {
        i
    } else if g < 18 {
        g - 9
    } else {
        3 * ((g - 18) % 3) + i / 3
    }
}

/// The column of the `i`-th cell of group `g`.
pub open spec fn gcell_x(g: int, i: int) -> int {
    if g < 9 {
        g
    } else if g < 18 {
        i
    } else {
        3 * ((g - 18) / 3) + i % 3
    }
}

/// How many of the first `n` cells of group `g` are undetermined and list
/// digit `d + 1`.
pub open spec fn gcand_count(b: Seq<Field>, g: int, d: int, n: nat) -> nat
    decreases n,
{
    if n == 0 {
        0
    } else {
        gcand_count(b, g, d, (n - 1) as nat) + (if lists(
            b[cell_idx(gcell_y(g, n - 1), gcell_x(g, n - 1))],
            d,
        ) {
            1nat
        } else {
            0nat
        })
    }
}

/// The first cell of group `g` at position `i` or above that lists digit
/// `d + 1` (9 when there is none).
pub open spec fn gcand_first(b: Seq<Field>, g: int, d: int, i: nat) -> int
    decreases 9 - i,
{
    if i >= 9 {
        9
    } else if lists(b[cell_idx(gcell_y(g, i as int), gcell_x(g, i as int))], d) {
        i as int
    } else {
        gcand_first(b, g, d, i + 1)
    }
}

/// Digit `d + 1` is listed by exactly one undetermined cell of group `g`.
pub open spec fn hidden_single(b: Seq<Field>, g: int, d: int) -> bool {
    gcand_count(b, g, d, 9) == 1
}

/// One pending placement: a cell and the digit to fix there.
#[derive(Clone, Copy, PartialEq, Eq, Structural, Debug)]
pub struct Update {
    pub y: usize,
    pub x: usize,
    pub number: u8,
}

/// What one group's scan records for one digit: no cell so far, exactly
/// one, or too many for a hidden single.
#[derive(Clone, Copy, PartialEq, Eq, Structural, Debug)]
pub enum OptionCoords {
    Absent,
    One { y: usize, x: usize },
    TooMany,
}

/// The placement that a hidden single of digit `d + 1` in group `g` records.
pub open spec fn hs_update(b: Seq<Field>, g: int, d: int) -> Update {
    let i = gcand_first(b, g, d, 0);
    Update { y: gcell_y(g, i) as usize, x: gcell_x(g, i) as usize, number: (d + 1) as u8 }
}

/// The placements group `g` records for digits below `nd`, in digit order.
pub open spec fn group_updates_upto(b: Seq<Field>, g: int, nd: nat) -> Seq<Update>
    decreases nd,
{
    if nd == 0 {
        Seq::empty()
    } else {
        let pre = group_updates_upto(b, g, (nd - 1) as nat);
        if hidden_single(b, g, nd - 1) {
            pre.push(hs_update(b, g, nd - 1))
        } else {
            pre
        }
    }
}

/// The placements of the first `ng` groups, in scan order.
pub open spec fn updates_upto(b: Seq<Field>, ng: nat) -> Seq<Update>
    decreases ng,
{
    if ng == 0 {
        Seq::empty()
    } else {
        updates_upto(b, (ng - 1) as nat) + group_updates_upto(b, ng - 1, 9)
    }
}

/// Every placement one hidden-single pass records, in the order the scan
/// pushes them.
pub open spec fn all_updates(b: Seq<Field>) -> Seq<Update> {
    updates_upto(b, 27)
}

/// The board after the first `n` recorded placements are applied in order
/// (a later placement at the same cell overwrites an earlier one).
pub open spec fn apply_updates(b: Seq<Field>, us: Seq<Update>, n: nat) -> Seq<Field>
    decreases n,
{
    if n == 0 {
        b
    } else {
        let prev = apply_updates(b, us, (n - 1) as nat);
        let u = us[n - 1];
        prev.update(cell_idx(u.y as int, u.x as int), Field::Number { number: u.number, auto: true })
    }
}

/// The board after one hidden-single pass: scan every group against the
/// unchanged board, then apply all recorded placements.
pub open spec fn rule_b(b: Seq<Field>) -> Seq<Field> {
    apply_updates(b, all_updates(b), all_updates(b).len())
}

/// The pass recorded at least one placement: what it reports as progress.
pub open spec fn rule_b_progress(b: Seq<Field>) -> bool {
    all_updates(b).len() > 0
}

/// What one group's record for one digit must be after scanning its first
/// `n` cells.
pub open spec fn oc_expected(b: Seq<Field>, g: int, d: int, n: nat) -> OptionCoords {
    let c = gcand_count(b, g, d, n);
    if c == 0 {
        OptionCoords::Absent
    } else if c == 1 {
        let i = gcand_first(b, g, d, 0);
        OptionCoords::One { y: gcell_y(g, i) as usize, x: gcell_x(g, i) as usize }
    } else {
        OptionCoords::TooMany
    }
}

/// A placement is sound for board `b`: it targets a grid cell that is
/// undetermined in `b` and still lists the placed digit.
pub open spec fn update_wf(b: Seq<Field>, u: Update) -> bool {
    in_grid(u.y as int, u.x as int) && 1 <= u.number <= 9 && lists(
        b[cell_idx(u.y as int, u.x as int)],
        u.number - 1,
    )
}

/// Every placement of the list is sound for `b`.
pub open spec fn updates_all_wf(b: Seq<Field>, us: Seq<Update>) -> bool {
    forall|t: int| 0 <= t < us.len() ==> update_wf(b, #[trigger] us[t])
}

/// Group cells lie on the grid.
pub(crate) proof fn lemma_gcell_range(g: int, i: int)
    requires
        0 <= g < 27,
        0 <= i < 9,
    ensures
        in_grid(gcell_y(g, i), gcell_x(g, i)),
{
}

/// A zero candidate count means no cell below `n` lists the digit.
pub(crate) proof fn lemma_gcand_zero(b: Seq<Field>, g: int, d: int, n: nat)
    requires
        gcand_count(b, g, d, n) == 0,
    ensures
        forall|i: int|
            0 <= i < n ==> !lists(#[trigger] b[cell_idx(gcell_y(g, i), gcell_x(g, i))], d),
    decreases n,
{
    if n > 0 {
        lemma_gcand_zero(b, g, d, (n - 1) as nat);
    }
}

/// `gcand_first` finds the least listing cell at or above `i`.
pub(crate) proof fn lemma_gcand_first(b: Seq<Field>, g: int, d: int, i: nat)
    requires
        i <= 9,
    ensures
        i <= gcand_first(b, g, d, i) <= 9,
        gcand_first(b, g, d, i) < 9 ==> lists(
            b[cell_idx(gcell_y(g, gcand_first(b, g, d, i)), gcell_x(g, gcand_first(b, g, d, i)))],
            d,
        ),
        forall|j: int|
            i <= j < gcand_first(b, g, d, i) ==> !lists(
                #[trigger] b[cell_idx(gcell_y(g, j), gcell_x(g, j))],
                d,
            ),
    decreases 9 - i,
{
    if i < 9 && !lists(b[cell_idx(gcell_y(g, i as int), gcell_x(g, i as int))], d) {
        lemma_gcand_first(b, g, d, i + 1);
    }
}

/// A positive candidate count below `n` pins the least listing cell.
pub(crate) proof fn lemma_gcand_pos(b: Seq<Field>, g: int, d: int, n: nat)
    requires
        n <= 9,
        gcand_count(b, g, d, n) > 0,
    ensures
        0 <= gcand_first(b, g, d, 0) < n,
        lists(
            b[cell_idx(gcell_y(g, gcand_first(b, g, d, 0)), gcell_x(g, gcand_first(b, g, d, 0)))],
            d,
        ),
    decreases n,
{
    if gcand_count(b, g, d, (n - 1) as nat) > 0 {
        lemma_gcand_pos(b, g, d, (n - 1) as nat);
    } else {
        lemma_gcand_zero(b, g, d, (n - 1) as nat);
        lemma_gcand_first(b, g, d, 0);
        let f = gcand_first(b, g, d, 0);
        assert(lists(b[cell_idx(gcell_y(g, n - 1), gcell_x(g, n - 1))], d));
        assert(f <= n - 1) by {
            if f > n - 1 {
                assert(!lists(b[cell_idx(gcell_y(g, n - 1), gcell_x(g, n - 1))], d));
            }
        }
    }
}

/// Each placement a group records is sound.
pub(crate) proof fn lemma_group_updates_wf(b: Seq<Field>, g: int, nd: nat)
    requires
        0 <= g < 27,
        nd <= 9,
    ensures
        updates_all_wf(b, group_updates_upto(b, g, nd)),
        group_updates_upto(b, g, nd).len() <= nd,
    decreases nd,
{
    if nd > 0 {
        lemma_group_updates_wf(b, g, (nd - 1) as nat);
        let pre = group_updates_upto(b, g, (nd - 1) as nat);
        if hidden_single(b, g, nd - 1) {
            lemma_gcand_pos(b, g, nd - 1, 9);
            let i = gcand_first(b, g, nd - 1, 0);
            lemma_gcell_range(g, i);
            assert(update_wf(b, hs_update(b, g, nd - 1)));
            assert forall|t: int|
                0 <= t < pre.push(hs_update(b, g, nd - 1)).len() implies update_wf(
                b,
                #[trigger] pre.push(hs_update(b, g, nd - 1))[t],
            ) by {
                if t < pre.len() {
                    assert(update_wf(b, pre[t]));
                }
            }
        }
    }
}

/// Every placement the whole pass records is sound.
pub(crate) proof fn lemma_updates_wf(b: Seq<Field>, ng: nat)
    requires
        ng <= 27,
    ensures
        updates_all_wf(b, updates_upto(b, ng)),
    decreases ng,
{
    if ng > 0 {
        lemma_updates_wf(b, (ng - 1) as nat);
        lemma_group_updates_wf(b, ng - 1, 9);
        let pre = updates_upto(b, (ng - 1) as nat);
        let grp = group_updates_upto(b, ng - 1, 9);
        assert forall|t: int| 0 <= t < (pre + grp).len() implies update_wf(
            b,
            #[trigger] (pre + grp)[t],
        ) by {
            if t < pre.len() {
                assert((pre + grp)[t] == pre[t]);
                assert(update_wf(b, pre[t]));
            } else {
                assert((pre + grp)[t] == grp[t - pre.len()]);
                assert(update_wf(b, grp[t - pre.len()]));
            }
        }
    }
}


impl Sudoku {
    /// Scan one group against the unchanged board: for every digit, record
    /// whether no cell, exactly one cell, or more than one undetermined
    /// cell of the group still lists it.
    #[verifier::loop_isolation(false)]
    #[verifier::rlimit(100)]
    fn scan_group(&self, g: usize) -> (oc: Vec<OptionCoords>)
        requires
            self.wf(),
            g < 27,
        ensures
            oc@.len() == 9,
            forall|d: int| 0 <= d < 9 ==> oc@[d] == oc_expected(self@, g as int, d, 9),
    {
        let ghost b = self@;
        let mut oc: Vec<OptionCoords> = Vec::new();
        for t in 0..9usize
            invariant
                oc@.len() == t,
                forall|d: int| 0 <= d < t ==> oc@[d] == OptionCoords::Absent,
        {
            oc.push(OptionCoords::Absent);
        }
        for i in 0..9usize
            invariant
                oc@.len() == 9,
                forall|d: int| 0 <= d < 9 ==> oc@[d] == oc_expected(b, g as int, d, i as nat),
        {
            let (cy, cx): (usize, usize) = if g < 9 {
                (i, g)
            } else if g < 18 {
                (g - 9, i)
            } else {
                (3 * ((g - 18) % 3) + i / 3, 3 * ((g - 18) / 3) + i % 3)
            };
            proof {
                assert(cy as int == gcell_y(g as int, i as int));
                assert(cx as int == gcell_x(g as int, i as int));
                lemma_gcell_range(g as int, i as int);
            }
            let f = self.field[cy * 9 + cx];
            match f {
                Field::Empty { options } => {
                    for dd in 0..9usize
                        invariant
                            oc@.len() == 9,
                            forall|d: int|
                                0 <= d < dd ==> oc@[d] == oc_expected(b, g as int, d, (i + 1) as nat),
                            forall|d: int|
                                dd <= d < 9 ==> oc@[d] == oc_expected(b, g as int, d, i as nat),
                    {
                        let ghost cell = b[cell_idx(gcell_y(g as int, i as int), gcell_x(g as int, i as int))];
                        if ((options >> (dd as u16)) & 1u16) == 1u16 {
                            proof {
                                assert(lists(cell, dd as int));
                                if gcand_count(b, g as int, dd as int, i as nat) == 0 {
                                    lemma_gcand_zero(b, g as int, dd as int, i as nat);
                                    lemma_gcand_first(b, g as int, dd as int, 0);
                                    assert(gcand_first(b, g as int, dd as int, 0) == i as int);
                                }
                            }
                            let cur = oc[dd];
                            match cur {
                                OptionCoords::Absent => {
                                    oc[dd] = OptionCoords::One { y: cy, x: cx };
                                },
                                OptionCoords::One { .. } => {
                                    oc[dd] = OptionCoords::TooMany;
                                },
                                OptionCoords::TooMany => {},
                            }
                        } else {
                            proof {
                                assert(!lists(cell, dd as int));
                            }
                        }
                    }
                },
                _ => {
                    proof {
                        assert forall|d: int|
                            0 <= d < 9 implies oc_expected(b, g as int, d, (i + 1) as nat)
                            == oc_expected(b, g as int, d, i as nat) by {
                            assert(!lists(
                                b[cell_idx(gcell_y(g as int, i as int), gcell_x(g as int, i as int))],
                                d,
                            ));
                        }
                    }
                },
            }
        }
        oc
    }

    /// One hidden-single pass: scan the 27 groups (columns, then rows, then
    /// boxes) against the unchanged board, collect a placement for every
    /// digit listed by exactly one undetermined cell of a group, then apply
    /// all placements.  Returns whether any placement was recorded.
    #[verifier::loop_isolation(false)]
    #[verifier::rlimit(100)]
    pub fn reduce_numberwise(&mut self) -> (updated: bool)
        requires
            old(self).wf(),
        ensures
            final(self).wf(),
            final(self)@ == rule_b(old(self)@),
            updated == rule_b_progress(old(self)@),
    {
        let ghost b0 = self@;
        let mut updates: Vec<Update> = Vec::new();
        for g in 0..27usize
            invariant
                updates@ == updates_upto(b0, g as nat),
        {
            let oc = self.scan_group(g);
            for dd in 0..9usize
                invariant
                    updates@ == updates_upto(b0, g as nat) + group_updates_upto(
                        b0,
                        g as int,
                        dd as nat,
                    ),
            {
                match oc[dd] {
                    OptionCoords::One { y: uy, x: ux } => {
                        proof {
                            assert(oc@[dd as int] == oc_expected(b0, g as int, dd as int, 9));
                            assert(hidden_single(b0, g as int, dd as int));
                        }
                        updates.push(Update { y: uy, x: ux, number: (dd + 1) as u8 });
                        proof {
                            assert((Update { y: uy, x: ux, number: (dd + 1) as u8 }) == hs_update(
                                b0,
                                g as int,
                                dd as int,
                            ));
                            assert(updates@ =~= updates_upto(b0, g as nat) + group_updates_upto(
                                b0,
                                g as int,
                                (dd + 1) as nat,
                            ));
                        }
                    },
                    _ => {
                        proof {
                            assert(!hidden_single(b0, g as int, dd as int));
                            assert(updates@ =~= updates_upto(b0, g as nat) + group_updates_upto(
                                b0,
                                g as int,
                                (dd + 1) as nat,
                            ));
                        }
                    },
                }
            }
            proof {
                assert(updates@ == updates_upto(b0, (g + 1) as nat));
            }
        }
        proof {
            assert(updates@ == all_updates(b0));
            lemma_updates_wf(b0, 27);
        }
        let ghost us = updates@;
        let n = updates.len();
        for t in 0..n
            invariant
                n == updates@.len(),
                updates@ == us,
                self@ == apply_updates(b0, us, t as nat),
                self.wf(),
        {
            let u = updates[t];
            proof {
                assert(update_wf(b0, us[t as int]));
            }
            let ghost before = self@;
            self.field[u.y * 9 + u.x] = Field::Number { number: u.number, auto: true };
            proof {
                assert(self@ == apply_updates(b0, us, (t + 1) as nat));
                assert forall|ii: int| 0 <= ii < 81 implies cell_wf(#[trigger] self@[ii]) by {
                    if ii != cell_idx(u.y as int, u.x as int) {
                        assert(cell_wf(before[ii]));
                    }
                }
            }
        }
        n != 0
    }
}


// ------------------------------------------------------------------
// Phase 0 and the fixpoint.

/// What the reset phase leaves in one cell: user entries survive, all
/// else returns to the full candidate set.
pub open spec fn reset_cell(f: Field) -> Field {
    if is_manual(f) {
        f
    } else {
        Field::Empty { options: ALL_OPTIONS }
    }
}

/// Phase 0: the whole board reset against only the user's entries.
pub open spec fn reset_board(b: Seq<Field>) -> Seq<Field> {
    Seq::new(81, |i: int| reset_cell(b[i]))
}

/// The fixpoint loop: sweep naked singles; when that places nothing, try
/// hidden singles; stop the first time neither places a digit.  `fuel`
/// bounds the recursion; every continuing iteration places a digit, so any
/// fuel above 81 behaves the same.
pub open spec fn engine_fix(b: Seq<Field>, fuel: nat) -> Seq<Field>
    decreases fuel,
{
    if fuel == 0 {
        b
    } else {
        let a = rule_a(b);
        if rule_a_progress(b) {
            engine_fix(a, (fuel - 1) as nat)
        } else {
            let bb = rule_b(a);
            if rule_b_progress(a) {
                engine_fix(bb, (fuel - 1) as nat)
            } else {
                bb
            }
        }
    }
}

/// One full propagation: reset, then the fixpoint loop.
pub open spec fn propagate(b: Seq<Field>) -> Seq<Field> {
    engine_fix(reset_board(b), 82)
}

/// How many of the first `n` cells hold a fixed digit.
pub open spec fn number_count(b: Seq<Field>, n: nat) -> nat
    decreases n,
{
    if n == 0 {
        0
    } else {
        number_count(b, (n - 1) as nat) + (if is_number(b[n - 1]) { 1nat } else { 0nat })
    }
}

pub(crate) proof fn lemma_number_count_le(b: Seq<Field>, n: nat)
    ensures
        number_count(b, n) <= n,
    decreases n,
{
    if n > 0 {
        lemma_number_count_le(b, (n - 1) as nat);
    }
}

pub(crate) proof fn lemma_count_mono(a: Seq<Field>, c: Seq<Field>, n: nat)
    requires
        forall|i: int| 0 <= i < n ==> (is_number(#[trigger] a[i]) ==> is_number(c[i])),
    ensures
        number_count(a, n) <= number_count(c, n),
    decreases n,
{
    if n > 0 {
        lemma_count_mono(a, c, (n - 1) as nat);
    }
}

pub(crate) proof fn lemma_count_strict(a: Seq<Field>, c: Seq<Field>, n: nat, w: int)
    requires
        forall|i: int| 0 <= i < n ==> (is_number(#[trigger] a[i]) ==> is_number(c[i])),
        0 <= w < n,
        !is_number(a[w]),
        is_number(c[w]),
    ensures
        number_count(a, n) < number_count(c, n),
    decreases n,
{
    if w == n - 1 {
        lemma_count_mono(a, c, (n - 1) as nat);
    } else {
        lemma_count_strict(a, c, (n - 1) as nat, w);
    }
}

/// The sweep keeps every fixed digit in place and makes nothing manual.
pub(crate) proof fn lemma_rule_a_upto_cells(b: Seq<Field>, k: nat)
    requires
        b.len() == 81,
        k <= 81,
    ensures
        rule_a_upto(b, k).len() == 81,
        forall|i: int|
            0 <= i < 81 && is_number(#[trigger] b[i]) ==> rule_a_upto(b, k)[i] == b[i],
        forall|i: int|
            0 <= i < 81 && !is_number(#[trigger] b[i]) ==> !is_manual(rule_a_upto(b, k)[i]),
    decreases k,
{
    if k > 0 {
        lemma_rule_a_upto_cells(b, (k - 1) as nat);
    }
}

/// From any point of the sweep on, fixed digits stay in place.
pub(crate) proof fn lemma_rule_a_upto_mono(b: Seq<Field>, k1: nat, k2: nat)
    requires
        b.len() == 81,
        k1 <= k2 <= 81,
    ensures
        rule_a_upto(b, k2).len() == 81,
        forall|i: int|
            0 <= i < 81 && is_number(#[trigger] rule_a_upto(b, k1)[i]) ==> rule_a_upto(b, k2)[i]
                == rule_a_upto(b, k1)[i],
    decreases k2,
{
    if k2 > k1 {
        lemma_rule_a_upto_mono(b, k1, (k2 - 1) as nat);
        lemma_rule_a_upto_cells(b, (k2 - 1) as nat);
    } else {
        lemma_rule_a_upto_cells(b, k1);
    }
}

/// A sweep that reports progress has fixed strictly more digits; one that
/// does not has fixed no fewer.
pub(crate) proof fn lemma_rule_a_count(b: Seq<Field>)
    requires
        b.len() == 81,
    ensures
        number_count(b, 81) <= number_count(rule_a(b), 81),
        rule_a_progress(b) ==> number_count(b, 81) < number_count(rule_a(b), 81),
{
    lemma_rule_a_upto_cells(b, 81);
    assert forall|i: int|
        0 <= i < 81 implies (is_number(#[trigger] b[i]) ==> is_number(rule_a(b)[i])) by {}
    lemma_count_mono(b, rule_a(b), 81);
    if rule_a_progress(b) {
        let j = choose|j: int| 0 <= j < 81 && #[trigger] promo_at(b, j);
        let y = sweep_y(j);
        let x = sweep_x(j);
        let idx = cell_idx(y, x);
        assert(0 <= y < 9 && 0 <= x < 9);
        assert(0 <= idx < 81);
        let prev = rule_a_upto(b, j as nat);
        lemma_rule_a_upto_cells(b, j as nat);
        assert(prev.len() == 81);
        assert(rule_a_upto(b, (j + 1) as nat)[idx] == rule_a_cell(prev, y, x));
        assert(is_number(rule_a_upto(b, (j + 1) as nat)[idx]));
        lemma_rule_a_upto_mono(b, (j + 1) as nat, 81);
        assert(is_number(rule_a(b)[idx]));
        assert(!is_number(b[idx])) by {
            lemma_rule_a_upto_mono(b, 0, j as nat);
            if is_number(b[idx]) {
                assert(rule_a_upto(b, j as nat)[idx] == b[idx]);
            }
        }
        lemma_count_strict(b, rule_a(b), 81, idx);
    }
}

/// Applying sound placements keeps every fixed digit, makes nothing
/// manual, and fixes a digit at every placement's target.
pub(crate) proof fn lemma_apply_cells(b: Seq<Field>, us: Seq<Update>, n: nat)
    requires
        b.len() == 81,
        updates_all_wf(b, us),
        n <= us.len(),
    ensures
        apply_updates(b, us, n).len() == 81,
        forall|i: int|
            0 <= i < 81 && is_number(#[trigger] b[i]) ==> apply_updates(b, us, n)[i] == b[i],
        forall|i: int|
            0 <= i < 81 && !is_number(#[trigger] b[i]) ==> (apply_updates(b, us, n)[i] == b[i]
                || is_auto(apply_updates(b, us, n)[i])),
        forall|t: int|
            0 <= t < n ==> is_number(
                #[trigger] apply_updates(b, us, n)[cell_idx(us[t].y as int, us[t].x as int)],
            ),
    decreases n,
{
    if n > 0 {
        lemma_apply_cells(b, us, (n - 1) as nat);
        assert(update_wf(b, us[n - 1]));
    }
}

/// A hidden-single pass that records placements fixes strictly more
/// digits; one that records none changes nothing.
pub(crate) proof fn lemma_rule_b_count(b: Seq<Field>)
    requires
        b.len() == 81,
    ensures
        number_count(b, 81) <= number_count(rule_b(b), 81),
        rule_b_progress(b) ==> number_count(b, 81) < number_count(rule_b(b), 81),
{
    lemma_updates_wf(b, 27);
    let us = all_updates(b);
    lemma_apply_cells(b, us, us.len());
    lemma_count_mono(b, rule_b(b), 81);
    if rule_b_progress(b) {
        let u = us[0];
        assert(update_wf(b, u));
        let idx = cell_idx(u.y as int, u.x as int);
        assert(!is_number(b[idx]));
        assert(is_number(rule_b(b)[idx]));
        lemma_count_strict(b, rule_b(b), 81, idx);
    }
}

impl Sudoku {
    /// Phase 0 of propagation: every cell that is not a user entry returns
    /// to the full candidate set, so deductions are recomputed from scratch
    /// against only the user's digits.
    #[verifier::loop_isolation(false)]
    pub fn reset(&mut self)
        requires
            old(self).wf(),
        ensures
            final(self).wf(),
            final(self)@ == reset_board(old(self)@),
    {
        let ghost b0 = self@;
        for i in 0..81usize
            invariant
                self@.len() == 81,
                forall|j: int| 0 <= j < i ==> self@[j] == reset_cell(b0[j]),
                forall|j: int| i <= j < 81 ==> self@[j] == b0[j],
        {
            match self.field[i] {
                Field::Number { auto: false, .. } => {},
                _ => {
                    self.field[i] = Field::Empty { options: ALL_OPTIONS };
                },
            }
        }
        proof {
            assert(self@ =~= reset_board(b0));
            assert forall|j: int| 0 <= j < 81 implies cell_wf(#[trigger] self@[j]) by {
                assert(cell_wf(b0[j]));
            }
        }
    }

    /// Run propagation to its fixpoint: reset, then alternate the two rules
    /// until one full iteration places nothing.
    #[verifier::loop_isolation(false)]
    pub fn update_options(&mut self)
        requires
            old(self).wf(),
        ensures
            final(self).wf(),
            final(self)@ == propagate(old(self)@),
    {
        self.reset();
        let ghost start = self@;
        let ghost mut fuel: nat = 82;
        let mut updated = true;
        while updated
            invariant
                self.wf(),
                fuel <= 82,
                updated ==> engine_fix(self@, fuel) == engine_fix(start, 82) && fuel
                    + number_count(self@, 81) >= 82,
                !updated ==> self@ == engine_fix(start, 82),
            decreases fuel,
        {
            let ghost b = self@;
            let ghost fuel0 = fuel;
            proof {
                lemma_number_count_le(b, 81);
                assert(fuel0 >= 1);
                fuel = (fuel - 1) as nat;
            }
            updated = self.reduce_fieldwise();
            proof {
                lemma_rule_a_count(b);
            }
            if !updated {
                let ghost a = self@;
                updated = self.reduce_numberwise();
                proof {
                    lemma_rule_b_count(a);
                    if updated {
                        assert(engine_fix(b, fuel0) == engine_fix(self@, fuel));
                    } else {
                        assert(self@ == engine_fix(b, fuel0));
                    }
                }
            } else {
                proof {
                    assert(engine_fix(b, fuel0) == engine_fix(self@, fuel));
                }
            }
        }
    }

    /// The edit gateway: apply one user edit to its cell, then propagate.
    /// The resulting board is fully converged before it is handed back.
    pub fn update(&mut self, y: usize, x: usize, f: Field)
        requires
            old(self).wf(),
            y < 9,
            x < 9,
            cell_wf(f),
        ensures
            final(self).wf(),
            final(self)@ == propagate(old(self)@.update(cell_idx(y as int, x as int), f)),
    {
        self.apply(y, x, f);
        self.update_options();
    }
}

} // verus!
