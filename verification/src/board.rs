//! The data model: a 9 x 9 grid of cells, each either a fixed digit (entered
//! by the user or deduced by the engine), an undetermined cell carrying the
//! set of digits not yet excluded, or a contradiction marker.
//!
//! A candidate set is a 9-bit mask: bit `d` stands for digit `d + 1`.

use vstd::prelude::*;

verus! {

/// The mask with all nine candidate digits still possible.
pub const ALL_OPTIONS: u16 = 0x1ff;

/// Does mask `m` still list digit `d + 1` (bit `d`) as a candidate?
pub open spec fn opt(m: u16, d: int) -> bool {
    0 <= d < 9 && ((m >> (d as u16)) & 1u16) == 1u16
}

/// How many of the bits `0 .. n` are set in `m`.
pub open spec fn opt_count(m: u16, n: nat) -> nat
    decreases n,
{
    if n == 0 {
        0
    } else {
        opt_count(m, (n - 1) as nat) + (if opt(m, n - 1) { 1nat } else { 0nat })
    }
}

/// The least set bit of `m` at position `i` or above (9 when there is none).
pub open spec fn first_opt_from(m: u16, i: nat) -> int
    decreases 9 - i,
{
    if i >= 9 {
        9
    } else if opt(m, i as int) {
        i as int
    } else {
        first_opt_from(m, i + 1)
    }
}

/// The least set bit of `m` (9 when the mask is empty).
pub open spec fn first_opt(m: u16) -> int {
    first_opt_from(m, 0)
}

/// One cell of the grid.
#[derive(Clone, Copy, PartialEq, Eq, Structural, Debug)]
pub enum Field {
    /// A fixed digit 1..=9; `auto` tells whether the engine deduced it
    /// (`true`) or the user entered it (`false`).
    Number { number: u8, auto: bool },
    /// An undetermined cell with its remaining candidate mask.
    Empty { options: u16 },
    /// A cell whose candidate set was exhausted: the manual entries
    /// contradict each other.  Display-only; cleared by the next reset.
    Invalid,
}

/// A digit cell entered by the user, which propagation must never touch.
pub open spec fn is_manual(f: Field) -> bool {
    f matches Field::Number { auto: false, .. }
}

/// A digit cell placed by the engine.
pub open spec fn is_auto(f: Field) -> bool {
    f matches Field::Number { auto: true, .. }
}

/// Any fixed digit, manual or deduced.
pub open spec fn is_number(f: Field) -> bool {
    f matches Field::Number { .. }
}

/// A structurally sound cell: digits lie in 1..=9 and candidate masks use
/// only the nine low bits.
pub open spec fn cell_wf(f: Field) -> bool {
    match f {
        Field::Number { number, .. } => 1 <= number <= 9,
        Field::Empty { options } => options <= ALL_OPTIONS,
        Field::Invalid => true,
    }
}

/// The index of cell (row `y`, column `x`) in the flattened grid.
pub open spec fn cell_idx(y: int, x: int) -> int {
    y * 9 + x
}

/// Coordinates that lie on the grid.
pub open spec fn in_grid(y: int, x: int) -> bool {
    0 <= y < 9 && 0 <= x < 9
}

/// A well-formed board: 81 structurally sound cells.
pub open spec fn board_wf(b: Seq<Field>) -> bool {
    b.len() == 81 && forall|i: int| 0 <= i < 81 ==> cell_wf(#[trigger] b[i])
}

/// How many of the first `n` cells hold an engine-deduced digit.
pub open spec fn auto_count(b: Seq<Field>, n: nat) -> nat
    decreases n,
{
    if n == 0 {
        0
    } else {
        auto_count(b, (n - 1) as nat) + (if is_auto(b[n - 1]) { 1nat } else { 0nat })
    }
}

/// How many of the first `n` cells hold a user-entered digit.
pub open spec fn manual_count(b: Seq<Field>, n: nat) -> nat
    decreases n,
{
    if n == 0 {
        0
    } else {
        manual_count(b, (n - 1) as nat) + (if is_manual(b[n - 1]) { 1nat } else { 0nat })
    }
}

/// The completion ratio in tenths of a percent, rounded to nearest: deduced
/// digits over cells not filled by the user, and 0 when every cell is the
/// user's (the zero-denominator boundary).
pub open spec fn completion_tenths(b: Seq<Field>) -> nat {
    let den = (81 - manual_count(b, 81)) as nat;
    if den == 0 {
        0
    } else {
        ((1000 * auto_count(b, 81) + den / 2) / den) as nat
    }
}

/// The board: 81 cells in row-major order.
pub struct Sudoku {
    pub field: Vec<Field>,
}

impl Default for Field {
    /// A fresh cell: undetermined, with all nine candidates still open.
    fn default() -> (f: Field)
        ensures
            f == (Field::Empty { options: ALL_OPTIONS }),
    {
        Field::Empty { options: ALL_OPTIONS }
    }
}

impl View for Sudoku {
    type V = Seq<Field>;

    open spec fn view(&self) -> Seq<Field> {
        self.field@
    }
}

impl Sudoku {
    /// A well-formed board value.
    pub open spec fn wf(&self) -> bool {
        board_wf(self@)
    }

    /// A fresh board: every cell undetermined with all nine candidates.
    pub fn new() -> (s: Sudoku)
        ensures
            s.wf(),
            forall|i: int| 0 <= i < 81 ==> s@[i] == (Field::Empty { options: ALL_OPTIONS }),
    {
        let mut field: Vec<Field> = Vec::new();
        for i in 0..81usize
            invariant
                field@.len() == i,
                forall|j: int| 0 <= j < i ==> field@[j] == (Field::Empty { options: ALL_OPTIONS }),
        {
            field.push(Field::Empty { options: ALL_OPTIONS });
        }
        Sudoku { field }
    }

    /// Read one cell; coordinates are in range by the caller's construction.
    pub fn get(&self, y: usize, x: usize) -> (f: Field)
        requires
            self.wf(),
            y < 9,
            x < 9,
        ensures
            f == self@[cell_idx(y as int, x as int)],
    {
        self.field[y * 9 + x]
    }

    /// Atomically overwrite one cell with the edit's resulting state.  No
    /// conflict check happens here: conflicts surface as `Invalid` cells
    /// after the next propagation.
    pub fn apply(&mut self, y: usize, x: usize, f: Field)
        requires
            old(self).wf(),
            y < 9,
            x < 9,
            cell_wf(f),
        ensures
            final(self).wf(),
            final(self)@ == old(self)@.update(cell_idx(y as int, x as int), f),
    {
        let i = y * 9 + x;
        self.field[i] = f;
        assert forall|j: int| 0 <= j < 81 implies cell_wf(#[trigger] self@[j]) by {
            assert(cell_wf(old(self)@[j]));
        }
    }

    /// The completion ratio in tenths of a percent (0 ..= 1000).
    pub fn completion_ratio_tenths(&self) -> (r: u32)
        requires
            self.wf(),
        ensures
            r == completion_tenths(self@),
    {
        let mut auto_n: u32 = 0;
        let mut manual_n: u32 = 0;
        for i in 0..81usize
            invariant
                self.wf(),
                auto_n == auto_count(self@, i as nat),
                manual_n == manual_count(self@, i as nat),
                auto_n <= i,
                manual_n <= i,
        {
            match self.field[i] {
                Field::Number { auto: true, .. } => {
                    auto_n = auto_n + 1;
                },
                Field::Number { auto: false, .. } => {
                    manual_n = manual_n + 1;
                },
                _ => {},
            }
        }
        let den: u32 = 81 - manual_n;
        if den == 0 {
            0
        } else {
            (1000 * auto_n + den / 2) / den
        }
    }
}

} // verus!
