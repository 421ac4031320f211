//! Laws of the engine, stated over the same spec functions that the
//! executable methods' contracts use.

use vstd::prelude::*;

use crate::board::{
    auto_count, board_wf, cell_idx, completion_tenths, in_grid, is_manual, is_number,
    manual_count, opt, opt_count, Field, ALL_OPTIONS,
};
use crate::engine::{
    all_updates, box_excl, col_excl, excluded, engine_fix, fresh_mask, has_digit,
    lemma_apply_cells, lemma_box_coords, lemma_fresh_mask_upto, lemma_number_count_le,
    lemma_rule_a_count, lemma_rule_a_upto_cells, lemma_rule_b_count, lemma_sweep_coords,
    lemma_updates_wf, lists, number_count, promo_at, propagate, reset_board, row_excl, rule_a,
    rule_a_cell, rule_a_progress, rule_a_upto, rule_b, rule_b_progress, sweep_x, sweep_y,
};

verus! {

/// Two distinct cells that share a row, a column or a 3 x 3 box: the sole
/// constraint relation of the game.
pub open spec fn peers(y: int, x: int, py: int, px: int) -> bool {
    in_grid(y, x) && in_grid(py, px) && !(y == py && x == px) && (y == py || x == px || (y / 3
        == py / 3 && x / 3 == px / 3))
}

/// Two boards agree exactly on the user's entries.
pub open spec fn manual_same(a: Seq<Field>, c: Seq<Field>) -> bool {
    a.len() == 81 && c.len() == 81 && forall|i: int|
        0 <= i < 81 ==> ((is_manual(#[trigger] a[i]) <==> is_manual(c[i])) && (is_manual(a[i])
            ==> a[i] == c[i]))
}

pub(crate) proof fn lemma_manual_same_trans(a: Seq<Field>, b: Seq<Field>, c: Seq<Field>)
    requires
        manual_same(a, b),
        manual_same(b, c),
    ensures
        manual_same(a, c),
{
}

/// A naked-single sweep never touches the user's entries.
pub(crate) proof fn lemma_manual_same_rule_a(b: Seq<Field>)
    requires
        b.len() == 81,
    ensures
        manual_same(b, rule_a(b)),
        rule_a(b).len() == 81,
{
    lemma_rule_a_upto_cells(b, 81);
}

/// A hidden-single pass never touches the user's entries.
pub(crate) proof fn lemma_manual_same_rule_b(b: Seq<Field>)
    requires
        b.len() == 81,
    ensures
        manual_same(b, rule_b(b)),
        rule_b(b).len() == 81,
{
    lemma_updates_wf(b, 27);
    lemma_apply_cells(b, all_updates(b), all_updates(b).len());
}

/// The whole fixpoint loop never touches the user's entries.
pub(crate) proof fn lemma_manual_same_fix(b: Seq<Field>, fuel: nat)
    requires
        b.len() == 81,
    ensures
        manual_same(b, engine_fix(b, fuel)),
        engine_fix(b, fuel).len() == 81,
    decreases fuel,
{
    if fuel == 0 {
    } else {
        let a = rule_a(b);
        lemma_manual_same_rule_a(b);
        if rule_a_progress(b) {
            lemma_manual_same_fix(a, (fuel - 1) as nat);
            lemma_manual_same_trans(b, a, engine_fix(a, (fuel - 1) as nat));
        } else {
            let bb = rule_b(a);
            lemma_manual_same_rule_b(a);
            lemma_manual_same_trans(b, a, bb);
            if rule_b_progress(a) {
                lemma_manual_same_fix(bb, (fuel - 1) as nat);
                lemma_manual_same_trans(b, bb, engine_fix(bb, (fuel - 1) as nat));
            }
        }
    }
}

/// The reset phase never touches the user's entries.
pub(crate) proof fn lemma_manual_same_reset(b: Seq<Field>)
    requires
        b.len() == 81,
    ensures
        manual_same(b, reset_board(b)),
{
}

/// Propagation as a whole never touches the user's entries.
pub(crate) proof fn lemma_manual_same_propagate(b: Seq<Field>)
    requires
        b.len() == 81,
    ensures
        manual_same(b, propagate(b)),
        propagate(b).len() == 81,
{
    lemma_manual_same_reset(b);
    lemma_manual_same_fix(reset_board(b), 82);
    lemma_manual_same_trans(b, reset_board(b), propagate(b));
}

/// The reset phase is a function of the user's entries alone.
pub(crate) proof fn lemma_reset_of_manual(a: Seq<Field>, c: Seq<Field>)
    requires
        manual_same(a, c),
    ensures
        reset_board(a) == reset_board(c),
{
    assert(reset_board(a) =~= reset_board(c));
}

// ------------------------------------------------------------------
// The laws.

/// Idempotence of propagation: running the engine again on a board it has
/// just converged, with no intervening edit, changes nothing.
pub proof fn lemma_propagation_idempotent(b: Seq<Field>)
    requires
        b.len() == 81,
    ensures
        propagate(propagate(b)) == propagate(b),
{
    lemma_manual_same_propagate(b);
    lemma_reset_of_manual(b, propagate(b));
}

/// Manual-entry persistence: a digit the user entered survives any
/// propagation unchanged, whatever else the edit touched.
pub proof fn lemma_manual_entry_persistence(b: Seq<Field>, y: int, x: int)
    requires
        b.len() == 81,
        in_grid(y, x),
        is_manual(b[cell_idx(y, x)]),
    ensures
        propagate(b)[cell_idx(y, x)] == b[cell_idx(y, x)],
{
    lemma_manual_same_propagate(b);
}

/// Reset totality: after the reset phase every cell is either the user's
/// own digit, unchanged, or the full candidate set; no deduced digit and
/// no contradiction marker survives.
pub proof fn lemma_reset_totality(b: Seq<Field>, y: int, x: int)
    requires
        b.len() == 81,
        in_grid(y, x),
    ensures
        is_manual(b[cell_idx(y, x)]) ==> reset_board(b)[cell_idx(y, x)] == b[cell_idx(y, x)],
        !is_manual(b[cell_idx(y, x)]) ==> reset_board(b)[cell_idx(y, x)] == (Field::Empty {
            options: ALL_OPTIONS,
        }),
{
}

pub(crate) proof fn lemma_counts_zero(b: Seq<Field>, n: nat)
    requires
        n <= b.len(),
        forall|i: int| 0 <= i < n ==> #[trigger] b[i] matches Field::Empty { .. },
    ensures
        auto_count(b, n) == 0,
        manual_count(b, n) == 0,
    decreases n,
{
    if n > 0 {
        lemma_counts_zero(b, (n - 1) as nat);
    }
}

/// Completion boundary: a board of nothing but undetermined cells has
/// denominator 81 and numerator 0, so its completion ratio is exactly 0.
pub proof fn lemma_completion_empty_board(b: Seq<Field>)
    requires
        b.len() == 81,
        forall|i: int| 0 <= i < 81 ==> #[trigger] b[i] matches Field::Empty { .. },
    ensures
        completion_tenths(b) == 0,
{
    lemma_counts_zero(b, 81);
    assert((81 - manual_count(b, 81)) as nat == 81);
    assert(1000 * auto_count(b, 81) == 0);
    assert((0nat + 81nat / 2) / 81nat == 0) by (nonlinear_arith);
}

// ------------------------------------------------------------------
// Stability of the fixpoint, and peer consistency.

/// With fuel to spare, the fixpoint loop ends on a board that one more
/// naked-single sweep would leave unchanged.
pub(crate) proof fn lemma_fix_stable(b: Seq<Field>, fuel: nat)
    requires
        b.len() == 81,
        fuel + number_count(b, 81) >= 82,
    ensures
        exists|c: Seq<Field>|
            engine_fix(b, fuel) == #[trigger] rule_a(c) && !rule_a_progress(c) && c.len() == 81,
    decreases fuel,
{
    lemma_number_count_le(b, 81);
    assert(fuel >= 1);
    let a = rule_a(b);
    lemma_rule_a_count(b);
    lemma_rule_a_upto_cells(b, 81);
    if rule_a_progress(b) {
        lemma_fix_stable(a, (fuel - 1) as nat);
    } else {
        let bb = rule_b(a);
        lemma_rule_b_count(a);
        lemma_updates_wf(a, 27);
        lemma_apply_cells(a, all_updates(a), all_updates(a).len());
        if rule_b_progress(a) {
            lemma_fix_stable(bb, (fuel - 1) as nat);
        } else {
            assert(all_updates(a).len() == 0);
            assert(bb == a);
            assert(engine_fix(b, fuel) == rule_a(b) && !rule_a_progress(b) && b.len() == 81);
        }
    }
}

/// A sweep that places nothing leaves every fixed digit exactly as it
/// was, at every intermediate step of the sweep.
pub(crate) proof fn lemma_noprog_numbers(c: Seq<Field>, k: nat)
    requires
        c.len() == 81,
        k <= 81,
        !rule_a_progress(c),
    ensures
        rule_a_upto(c, k).len() == 81,
        forall|i: int|
            0 <= i < 81 ==> ((is_number(#[trigger] rule_a_upto(c, k)[i]) <==> is_number(c[i]))
                && (is_number(c[i]) ==> rule_a_upto(c, k)[i] == c[i])),
    decreases k,
{
    if k > 0 {
        lemma_noprog_numbers(c, (k - 1) as nat);
        let prev = rule_a_upto(c, (k - 1) as nat);
        let y = sweep_y(k - 1);
        let x = sweep_x(k - 1);
        assert(!promo_at(c, k - 1));
        assert(0 <= y < 9 && 0 <= x < 9);
        assert(0 <= cell_idx(y, x) < 81);
        assert forall|i: int|
            0 <= i < 81 implies ((is_number(#[trigger] rule_a_upto(c, k)[i]) <==> is_number(c[i]))
                && (is_number(c[i]) ==> rule_a_upto(c, k)[i] == c[i])) by {
            if i == cell_idx(y, x) {
                assert(rule_a_upto(c, k)[i] == rule_a_cell(prev, y, x));
                match prev[i] {
                    Field::Empty { .. } => {
                        assert(opt_count(fresh_mask(prev, y, x), 9) != 1);
                        assert(!is_number(rule_a_upto(c, k)[i]));
                    },
                    _ => {},
                }
            } else {
                assert(rule_a_upto(c, k)[i] == prev[i]);
            }
        }
    }
}

/// Fixed digits alone decide what a cell sees.
pub(crate) proof fn lemma_excluded_same(a: Seq<Field>, c: Seq<Field>, y: int, x: int, d: int)
    requires
        a.len() == 81,
        c.len() == 81,
        in_grid(y, x),
        forall|i: int|
            0 <= i < 81 ==> ((is_number(#[trigger] a[i]) <==> is_number(c[i])) && (is_number(c[i])
                ==> a[i] == c[i])),
    ensures
        excluded(a, y, x, d) == excluded(c, y, x, d),
{
    assert(row_excl(a, y, d, 9) == row_excl(c, y, d, 9)) by {
        if row_excl(a, y, d, 9) {
            let j = choose|j: int| 0 <= j < 9 && has_digit(#[trigger] a[cell_idx(y, j)], d);
            assert(has_digit(c[cell_idx(y, j)], d));
        }
        if row_excl(c, y, d, 9) {
            let j = choose|j: int| 0 <= j < 9 && has_digit(#[trigger] c[cell_idx(y, j)], d);
            assert(has_digit(a[cell_idx(y, j)], d));
        }
    }
    assert(col_excl(a, x, d, 9) == col_excl(c, x, d, 9)) by {
        if col_excl(a, x, d, 9) {
            let j = choose|j: int| 0 <= j < 9 && has_digit(#[trigger] a[cell_idx(j, x)], d);
            assert(has_digit(c[cell_idx(j, x)], d));
        }
        if col_excl(c, x, d, 9) {
            let j = choose|j: int| 0 <= j < 9 && has_digit(#[trigger] c[cell_idx(j, x)], d);
            assert(has_digit(a[cell_idx(j, x)], d));
        }
    }
    let y0 = y - y % 3;
    let x0 = x - x % 3;
    assert(0 <= y0 <= 6 && 0 <= x0 <= 6);
    assert(box_excl(a, y0, x0, d, 9) == box_excl(c, y0, x0, d, 9)) by {
        if box_excl(a, y0, x0, d, 9) {
            let i = choose|i: int|
                0 <= i < 9 && has_digit(#[trigger] a[cell_idx(y0 + i / 3, x0 + i % 3)], d);
            assert(has_digit(c[cell_idx(y0 + i / 3, x0 + i % 3)], d));
        }
        if box_excl(c, y0, x0, d, 9) {
            let i = choose|i: int|
                0 <= i < 9 && has_digit(#[trigger] c[cell_idx(y0 + i / 3, x0 + i % 3)], d);
            assert(has_digit(a[cell_idx(y0 + i / 3, x0 + i % 3)], d));
        }
    }
}

/// After its own step, a sweep never rewrites a cell again.
pub(crate) proof fn lemma_rule_a_cell_final(c: Seq<Field>, y: int, x: int, k: nat)
    requires
        c.len() == 81,
        in_grid(y, x),
        9 * x + y < k <= 81,
    ensures
        rule_a_upto(c, k)[cell_idx(y, x)] == rule_a_cell(rule_a_upto(c, (9 * x + y) as nat), y, x),
    decreases k,
{
    let k0 = 9 * x + y;
    lemma_rule_a_upto_cells(c, (k - 1) as nat);
    lemma_sweep_coords(x, y);
    if k == k0 + 1 {
        assert(sweep_y(k - 1) == y && sweep_x(k - 1) == x);
    } else {
        lemma_rule_a_cell_final(c, y, x, (k - 1) as nat);
        let sy = sweep_y(k - 1);
        let sx = sweep_x(k - 1);
        assert(k - 1 == 9 * sx + sy);
        assert(0 <= sy < 9 && 0 <= sx < 9);
        assert(cell_idx(sy, sx) != cell_idx(y, x)) by {
            if cell_idx(sy, sx) == cell_idx(y, x) {
                assert(sy == y && sx == x);
            }
        }
    }
}

/// Peer consistency at the fixpoint: in a converged board, an undetermined
/// cell never lists a digit that any of its peers holds fixed, so no
/// surviving candidate contradicts a fixed digit it can see.
pub proof fn lemma_converged_peer_exclusion(
    b: Seq<Field>,
    y: int,
    x: int,
    py: int,
    px: int,
    d: int,
)
    requires
        board_wf(b),
        peers(y, x, py, px),
        has_digit(propagate(b)[cell_idx(py, px)], d),
    ensures
        !lists(propagate(b)[cell_idx(y, x)], d),
{
    let r = propagate(b);
    let rb = reset_board(b);
    assert(rb.len() == 81);
    lemma_fix_stable(rb, 82);
    let c = choose|c: Seq<Field>|
        r == #[trigger] rule_a(c) && !rule_a_progress(c) && c.len() == 81;
    lemma_noprog_numbers(c, 81);
    if lists(r[cell_idx(y, x)], d) {
        let k0: nat = (9 * x + y) as nat;
        lemma_rule_a_cell_final(c, y, x, 81);
        let prev = rule_a_upto(c, k0);
        lemma_noprog_numbers(c, k0);
        lemma_sweep_coords(x, y);
        assert(r[cell_idx(y, x)] == rule_a_cell(prev, y, x));
        let pidx = cell_idx(py, px);
        assert(0 <= pidx < 81);
        assert(has_digit(c[pidx], d)) by {
            assert(is_number(r[pidx]));
            assert(r[pidx] == c[pidx]);
        }
        assert(has_digit(prev[pidx], d)) by {
            assert(prev[pidx] == c[pidx]);
        }
        assert(excluded(prev, y, x, d)) by {
            if py == y {
                assert(0 <= px < 9 && has_digit(prev[cell_idx(y, px)], d));
                assert(row_excl(prev, y, d, 9));
            } else if px == x {
                assert(0 <= py < 9 && has_digit(prev[cell_idx(py, x)], d));
                assert(col_excl(prev, x, d, 9));
            } else {
                let y0 = y - y % 3;
                let x0 = x - x % 3;
                assert(y0 == 3 * (y / 3) && x0 == 3 * (x / 3));
                assert(0 <= py - y0 < 3 && 0 <= px - x0 < 3);
                let i = 3 * (py - y0) + (px - x0);
                lemma_box_coords(py - y0, px - x0);
                assert(0 <= i < 9);
                assert(y0 + i / 3 == py && x0 + i % 3 == px);
                assert(has_digit(prev[cell_idx(y0 + i / 3, x0 + i % 3)], d));
                assert(box_excl(prev, y0, x0, d, 9));
            }
        }
        lemma_fresh_mask_upto(prev, y, x, 9);
        assert(!opt(fresh_mask(prev, y, x), d));
        assert(false);
    }
}


/// Genuine ambiguity at the fixpoint: an undetermined cell of a converged
/// board always keeps at least two candidates -- a single survivor would
/// have been placed as a deduced digit, and an exhausted set would have
/// been marked a contradiction.
pub proof fn lemma_converged_ambiguity(b: Seq<Field>, y: int, x: int)
    requires
        board_wf(b),
        in_grid(y, x),
    ensures
        propagate(b)[cell_idx(y, x)] matches Field::Empty { options } ==> opt_count(options, 9)
            >= 2,
{
    let r = propagate(b);
    let rb = reset_board(b);
    lemma_fix_stable(rb, 82);
    let c = choose|c: Seq<Field>|
        r == #[trigger] rule_a(c) && !rule_a_progress(c) && c.len() == 81;
    lemma_rule_a_cell_final(c, y, x, 81);
    let prev = rule_a_upto(c, (9 * x + y) as nat);
    assert(r[cell_idx(y, x)] == rule_a_cell(prev, y, x));
    match r[cell_idx(y, x)] {
        Field::Empty { options } => {
            assert(opt_count(options, 9) >= 2);
        },
        _ => {},
    }
}

} // verus!
