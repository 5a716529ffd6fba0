//! Grid geometry: mapping a linear cell index to its row, column and block,
//! and enumerating the nine cells of each of those houses.
use vstd::prelude::*;

verus! {

/// A cell of the grid, identified by its linear index `0..81` in row-major order.
#[derive(Clone, Copy, PartialEq, Eq, Structural, PartialOrd, Ord, Debug)]
pub struct Cell(pub u8);

/// A row of the grid, `0..9` from the top.
#[derive(Clone, Copy, PartialEq, Eq, Structural, PartialOrd, Ord, Debug)]
pub struct Row(pub u8);

/// A column of the grid, `0..9` from the left.
#[derive(Clone, Copy, PartialEq, Eq, Structural, PartialOrd, Ord, Debug)]
pub struct Col(pub u8);

/// One of the nine 3x3 blocks, `0..9` in row-major order.
#[derive(Clone, Copy, PartialEq, Eq, Structural, PartialOrd, Ord, Debug)]
pub struct Block(pub u8);

/// The row of the cell with linear index `i`.
pub open spec fn row_of_idx(i: int) -> int {
    i / 9
}

/// The column of the cell with linear index `i`.
pub open spec fn col_of_idx(i: int) -> int {
    i % 9
}

/// The block of the cell with linear index `i`.
pub open spec fn block_of_idx(i: int) -> int {
    (i / 9) / 3 * 3 + (i % 9) / 3
}

/// Two cells share a house when they lie in the same row, column or block.
pub open spec fn same_house(i: int, j: int) -> bool {
    row_of_idx(i) == row_of_idx(j) || col_of_idx(i) == col_of_idx(j) || block_of_idx(i)
        == block_of_idx(j)
}

/// Distinct cells that share a house constrain one another.
pub open spec fn is_peer(i: int, j: int) -> bool {
    i != j && same_house(i, j)
}

/// A row, a column or a block: a group of nine cells that must hold
/// each digit exactly once.
pub trait House: Sized {
    /// The linear index of the house's `k`-th cell, in the order `cells` yields them.
    spec fn house_cell(self, k: int) -> int;

    /// The house identifier is one of the nine of its kind.
    spec fn house_valid(self) -> bool;

    /// The first cell of the house.
    fn start(self) -> (c: Cell)
        requires
            self.house_valid(),
        ensures
            c.0 as int == self.house_cell(0),
    ;

    /// The nine cells of the house, in a fixed order.
    fn cells(self) -> (v: Vec<Cell>)
        requires
            self.house_valid(),
        ensures
            v@.len() == 9,
            forall|k: int| 0 <= k < 9 ==> (#[trigger] v@[k]).0 as int == self.house_cell(k),
            forall|k: int| 0 <= k < 9 ==> 0 <= #[trigger] self.house_cell(k) < 81,
    ;
}

impl Cell {
    /// The row this cell lies in.
    pub fn row(self) -> (r: Row)
        ensures
            r.0 as int == row_of_idx(self.0 as int),
    {
        Row(self.0 / 9)
    }

    /// The column this cell lies in.
    pub fn col(self) -> (c: Col)
        ensures
            c.0 as int == col_of_idx(self.0 as int),
    {
        Col(self.0 % 9)
    }

    /// The block this cell lies in.
    pub fn block(self) -> (b: Block)
        ensures
            b.0 as int == block_of_idx(self.0 as int),
    {
        let Row(row) = self.row();
        let Col(col) = self.col();

        Block(row / 3 * 3 + col / 3)
    }
}

impl House for Row {
    open spec fn house_cell(self, k: int) -> int {
        self.0 * 9 + k
    }

    open spec fn house_valid(self) -> bool {
        self.0 < 9
    }

    fn start(self) -> (c: Cell) {
        Cell(self.0 * 9)
    }

    fn cells(self) -> (v: Vec<Cell>) {
        let start = self.start().0;
        let mut v: Vec<Cell> = Vec::new();
        for x in 0..9u8
            invariant
                v@.len() == x as int,
                start == self.0 * 9,
                self.0 < 9,
                forall|k: int| 0 <= k < x as int ==> (#[trigger] v@[k]).0 as int == self.house_cell(
                    k,
                ),
        {
            v.push(Cell(start + x));
        }
        v
    }
}

impl House for Col {
    open spec fn house_cell(self, k: int) -> int {
        self.0 + k * 9
    }

    open spec fn house_valid(self) -> bool {
        self.0 < 9
    }

    fn start(self) -> (c: Cell) {
        Cell(self.0)
    }

    fn cells(self) -> (v: Vec<Cell>) {
        let start = self.start().0;
        let mut v: Vec<Cell> = Vec::new();
        for x in 0..9u8
            invariant
                v@.len() == x as int,
                start == self.0,
                self.0 < 9,
                forall|k: int| 0 <= k < x as int ==> (#[trigger] v@[k]).0 as int == self.house_cell(
                    k,
                ),
        {
            v.push(Cell(start + x * 9));
        }
        v
    }
}

impl House for Block {
    open spec fn house_cell(self, k: int) -> int {
        self.0 / 3 * 27 + self.0 % 3 * 3 + k / 3 * 9 + k % 3
    }

    open spec fn house_valid(self) -> bool {
        self.0 < 9
    }

    fn start(self) -> (c: Cell) {
        Cell(self.0 / 3 * 27 + self.0 % 3 * 3)
    }

    fn cells(self) -> (v: Vec<Cell>) {
        let start = self.start().0;
        let mut v: Vec<Cell> = Vec::new();
        for x in 0..9u8
            invariant
                v@.len() == x as int,
                start == self.0 / 3 * 27 + self.0 % 3 * 3,
                self.0 < 9,
                forall|k: int| 0 <= k < x as int ==> (#[trigger] v@[k]).0 as int == self.house_cell(
                    k,
                ),
        {
            let block_row = x / 3;
            let block_col = x % 3;
            v.push(Cell(start + block_col + block_row * 9));
        }
        v
    }
}

/// Wraps the converse of the fundamental division property for the crate's
/// quotient-remainder decompositions.
pub proof fn lemma_divmod(x: int, d: int, q: int, r: int)
    requires
        d > 0,
        0 <= r < d,
        x == q * d + r,
    ensures
        x / d == q,
        x % d == r,
{
    vstd::arithmetic::div_mod::lemma_fundamental_div_mod_converse_div(x, d, q, r);
    vstd::arithmetic::div_mod::lemma_fundamental_div_mod_converse_mod(x, d, q, r);
}

/// The row house of `c` holds exactly the cells of `c`'s row: its `k`-th
/// member is `Row`'s `house_cell(k)`.
pub proof fn lemma_row_house(c: int, i: int)
    requires
        0 <= c < 81,
        0 <= i < 81,
    ensures
        (row_of_idx(i) == row_of_idx(c)) <==> (exists|k: int|
            0 <= k < 9 && i == #[trigger] Row((c / 9) as u8).house_cell(k)),
{
    let r = row_of_idx(c);
    assert(0 <= r < 9);
    if exists|k: int| 0 <= k < 9 && i == #[trigger] Row((c / 9) as u8).house_cell(k) {
        let k = choose|k: int| 0 <= k < 9 && i == #[trigger] Row((c / 9) as u8).house_cell(k);
        lemma_divmod(i, 9, r, k);
    }
    if row_of_idx(i) == r {
        let k = i % 9;
        assert(i == Row((c / 9) as u8).house_cell(k));
    }
}

/// The column house of `c` holds exactly the cells of `c`'s column.
pub proof fn lemma_col_house(c: int, i: int)
    requires
        0 <= c < 81,
        0 <= i < 81,
    ensures
        (col_of_idx(i) == col_of_idx(c)) <==> (exists|k: int|
            0 <= k < 9 && i == #[trigger] Col((c % 9) as u8).house_cell(k)),
{
    let col = col_of_idx(c);
    if exists|k: int| 0 <= k < 9 && i == #[trigger] Col((c % 9) as u8).house_cell(k) {
        let k = choose|k: int| 0 <= k < 9 && i == #[trigger] Col((c % 9) as u8).house_cell(k);
        lemma_divmod(i, 9, k, col);
    }
    if col_of_idx(i) == col {
        let k = i / 9;
        assert(i == Col((c % 9) as u8).house_cell(k));
    }
}

/// The block house of `c` holds exactly the cells of `c`'s block.
pub proof fn lemma_block_house(c: int, i: int)
    requires
        0 <= c < 81,
        0 <= i < 81,
    ensures
        (block_of_idx(i) == block_of_idx(c)) <==> (exists|k: int|
            0 <= k < 9 && i == #[trigger] Block(block_of_idx(c) as u8).house_cell(k)),
        0 <= block_of_idx(c) < 9,
{
    let b = block_of_idx(c);
    assert(0 <= b < 9);
    lemma_divmod(b, 3, (c / 9) / 3, (c % 9) / 3);
    if exists|k: int| 0 <= k < 9 && i == #[trigger] Block(b as u8).house_cell(k) {
        let k = choose|k: int| 0 <= k < 9 && i == #[trigger] Block(b as u8).house_cell(k);
        let j = b / 3 * 27 + b % 3 * 3 + k / 3 * 9 + k % 3;
        assert(i == j);
        lemma_divmod(j, 9, b / 3 * 3 + k / 3, b % 3 * 3 + k % 3);
        lemma_divmod(j / 9, 3, b / 3, k / 3);
        lemma_divmod(j % 9, 3, b % 3, k % 3);
    }
    if block_of_idx(i) == b {
        let k = (i / 9) % 3 * 3 + (i % 9) % 3;
        lemma_divmod(k, 3, (i / 9) % 3, (i % 9) % 3);
        lemma_divmod(b, 3, (i / 9) / 3, (i % 9) / 3);
        assert(i / 9 == (i / 9) / 3 * 3 + (i / 9) % 3);
        assert(i % 9 == (i % 9) / 3 * 3 + (i % 9) % 3);
        assert(i == i / 9 * 9 + i % 9);
        assert(Block(b as u8).house_cell(k) == b / 3 * 27 + b % 3 * 3 + k / 3 * 9 + k % 3);
        assert(b / 3 * 27 + b % 3 * 3 + k / 3 * 9 + k % 3 == i);
        assert(0 <= k < 9);
    }
}

/// A cell shares a house with `c` exactly when it lies in one of `c`'s three
/// house cell lists.
pub proof fn lemma_same_house_cover(c: int, i: int)
    requires
        0 <= c < 81,
        0 <= i < 81,
    ensures
        same_house(i, c) <==> ((exists|k: int|
            0 <= k < 9 && i == #[trigger] Row((c / 9) as u8).house_cell(k)) || (exists|k: int|
            0 <= k < 9 && i == #[trigger] Col((c % 9) as u8).house_cell(k)) || (exists|k: int|
            0 <= k < 9 && i == #[trigger] Block(block_of_idx(c) as u8).house_cell(k))),
{
    lemma_row_house(c, i);
    lemma_col_house(c, i);
    lemma_block_house(c, i);
}

/// The single-bit mask for digit `num` (digits are stored `0..9` for `1..=9`).
pub fn number_to_mask(num: u8) -> (r: u16)
    requires
        num < 16,
    ensures
        r == 1u16 << num,
{
    1u16 << num
}

} // verus!
