use vstd::prelude::*;

use crate::cell::{Cell, COORD_LIMIT};

verus! {

/// Identifier of a sprite (a tile kind) on the board.
pub type SpriteId = usize;

/// The sprite id that marks an empty cell.
pub const NO_SPRITE: SpriteId = 0;

/// Largest playable width or height that `Mapping::new` accepts, plus the
/// border on both sides.
pub const MAX_SIDE: usize = 257;

/// A bordered rectangular board of sprites, stored row by row. The outermost
/// ring of cells is a border: it can be walked over but never filled.
pub struct Mapping {
    pub columns: usize,
    pub rows: usize,
    pub data: Vec<SpriteId>,
}

pub proof fn lemma_index_in_bounds(column: int, row: int, columns: int, rows: int)
    requires
        0 <= column < columns,
        0 <= row < rows,
    ensures
        0 <= row * columns + column < rows * columns,
{
    assert(row * columns + column < rows * columns) by (nonlinear_arith)
        requires
            0 <= column < columns,
            0 <= row < rows,
    ;
    assert(0 <= row * columns) by (nonlinear_arith)
        requires
            0 <= row,
            0 <= columns,
    ;
}

/// The cells of column `x` inside the border, top to bottom.
pub open spec fn column_cells(x: int, rows: int) -> Seq<Cell> {
    Seq::new((rows - 2) as nat, |j: int| Cell { column: x as usize, row: (j + 1) as usize })
}

/// The cells inside the border of the columns `1 .. x`, column by column.
pub open spec fn interior_cells(x: int, rows: int) -> Seq<Cell>
    decreases x,
{
    if x <= 1 {
        Seq::empty()
    } else {
        interior_cells(x - 1, rows) + column_cells(x - 1, rows)
    }
}

/// The cell of the `t`-th fill of a plan: cells are taken from the back of
/// `regions`.
pub open spec fn planned_cell(regions: Seq<Cell>, t: int) -> Cell {
    regions[regions.len() - 1 - t]
}

/// How many cells a plan fills: two for each sprite, while two cells remain.
pub open spec fn planned_fills(regions: Seq<Cell>, sprites: Seq<SpriteId>) -> int {
    let pairs = if sprites.len() <= regions.len() / 2 {
        sprites.len() as int
    } else {
        (regions.len() / 2) as int
    };
    2 * pairs
}

impl View for Mapping {
    type V = Seq<SpriteId>;

    open spec fn view(&self) -> Seq<SpriteId> {
        self.data@
    }
}

impl Default for Mapping {
    /// A board of 12 by 12 cells, border included, all empty.
    fn default() -> (r: Self)
        ensures
            r.wf(),
            r.columns == 12,
            r.rows == 12,
            forall|i: int| 0 <= i < r@.len() ==> r@[i] == NO_SPRITE,
    {
        Self { columns: 12, rows: 12, data: vec![NO_SPRITE; 12 * 12] }
    }
}

impl Mapping {
    /// The board's dimensions are consistent with its storage.
    pub open spec fn wf(&self) -> bool {
        &&& 2 <= self.columns <= MAX_SIDE
        &&& 2 <= self.rows <= MAX_SIDE
        &&& self@.len() == self.columns * self.rows
    }

    pub open spec fn valid(&self, cell: Cell) -> bool {
        cell.column < self.columns && cell.row < self.rows
    }

    pub open spec fn border(&self, cell: Cell) -> bool {
        cell.column == 0 || cell.column == self.columns - 1 || cell.row == 0 || cell.row
            == self.rows - 1
    }

    pub open spec fn index(&self, cell: Cell) -> int {
        cell.row * self.columns + cell.column
    }

    /// The sprite at a cell of the board.
    pub open spec fn at(&self, cell: Cell) -> SpriteId {
        self@[self.index(cell)]
    }

    /// A cell that a connecting line may pass over: on the board and empty.
    pub open spec fn free(&self, cell: Cell) -> bool {
        self.valid(cell) && self.at(cell) == NO_SPRITE
    }

    pub proof fn lemma_valid_index(&self, cell: Cell)
        requires
            self.wf(),
            self.valid(cell),
        ensures
            0 <= self.index(cell) < self@.len(),
            cell.column <= COORD_LIMIT,
            cell.row <= COORD_LIMIT,
    {
        lemma_index_in_bounds(cell.column as int, cell.row as int, self.columns as int, self.rows as int);
    }

    /// A board with `columns` by `rows` playable cells, all empty, surrounded
    /// by a border one cell wide.
    pub fn new(columns: u8, rows: u8) -> (r: Self)
        ensures
            r.wf(),
            r.columns == columns + 2,
            r.rows == rows + 2,
            forall|i: int| 0 <= i < r@.len() ==> r@[i] == NO_SPRITE,
    {
        let actual_columns = columns as usize + 2;
        let actual_rows = rows as usize + 2;
        assert(actual_columns * actual_rows <= 257 * 257) by (nonlinear_arith)
            requires
                actual_columns <= 257,
                actual_rows <= 257,
        ;
        Self {
            columns: actual_columns,
            rows: actual_rows,
            data: vec![NO_SPRITE; actual_columns * actual_rows],
        }
    }

    fn cell2index(&self, cell: &Cell) -> (r: usize)
        requires
            self.wf(),
            self.valid(*cell),
        ensures
            r == self.index(*cell),
            r < self@.len(),
    {
        proof {
            self.lemma_valid_index(*cell);
            assert(cell.row * self.columns <= 257 * 257) by (nonlinear_arith)
                requires
                    cell.row <= 257,
                    self.columns <= 257,
            ;
        }
        cell.row * self.columns + cell.column
    }

    pub fn get_sprite(&self, cell: &Cell) -> (r: SpriteId)
        requires
            self.wf(),
            self.valid(*cell),
        ensures
            r == self.at(*cell),
    {
        let idx = self.cell2index(cell);
        self.data[idx]
    }

    pub fn check_valid_cell(&self, cell: &Cell) -> (r: bool)
        ensures
            r == self.valid(*cell),
    {
        cell.column < self.columns && cell.row < self.rows
    }

    pub fn check_if_border(&self, cell: &Cell) -> (r: bool)
        requires
            self.wf(),
        ensures
            r == self.border(*cell),
    {
        cell.column == 0 || cell.column == self.columns - 1 || cell.row == 0 || cell.row
            == self.rows - 1
    }

    /// Whether a sprite may be put on the cell: it must be inside the border
    /// and empty.
    pub fn check_fillable_cell(&self, cell: &Cell) -> (r: Result<(), &'static str>)
        requires
            self.wf(),
            self.valid(*cell),
        ensures
            self.border(*cell) ==> r == Err::<(), &'static str>("cell is at border"),
            !self.border(*cell) && self.at(*cell) != NO_SPRITE ==> r == Err::<(), &'static str>(
                "cell is occupied",
            ),
            r is Ok <==> !self.border(*cell) && self.at(*cell) == NO_SPRITE,
    {
        if self.check_if_border(cell) {
            return Err("cell is at border");
        }
        let idx = self.cell2index(cell);
        if self.data[idx] == NO_SPRITE {
            Ok(())
        } else {
            Err("cell is occupied")
        }
    }

    pub fn clear_cell(&mut self, cell: &Cell)
        requires
            old(self).wf(),
            old(self).valid(*cell),
        ensures
            final(self).wf(),
            final(self).columns == old(self).columns,
            final(self).rows == old(self).rows,
            final(self)@ == old(self)@.update(old(self).index(*cell), NO_SPRITE),
    {
        let idx = self.cell2index(cell);
        self.data.set(idx, NO_SPRITE);
    }

    pub fn fill_cell(&mut self, cell: &Cell, sprite: SpriteId) -> (r: Result<(), &'static str>)
        requires
            old(self).wf(),
            old(self).valid(*cell),
        ensures
            final(self).wf(),
            final(self).columns == old(self).columns,
            final(self).rows == old(self).rows,
            old(self).border(*cell) ==> r == Err::<(), &'static str>("cell is at border"),
            !old(self).border(*cell) && old(self).at(*cell) != NO_SPRITE ==> r == Err::<
                (),
                &'static str,
            >("cell is occupied"),
            r is Ok <==> !old(self).border(*cell) && old(self).at(*cell) == NO_SPRITE,
            r is Ok ==> final(self)@ == old(self)@.update(old(self).index(*cell), sprite),
            r is Err ==> final(self)@ == old(self)@,
    {
        match self.check_fillable_cell(cell) {
            Err(e) => Err(e),
            Ok(()) => {
                let idx = self.cell2index(cell);
                self.data.set(idx, sprite);
                Ok(())
            },
        }
    }

    /// The board after the first `t` fills of the plan, each `t`-th fill
    /// putting sprite `sprites[t / 2]` on `planned_cell(regions, t)`.
    pub open spec fn filled(&self, regions: Seq<Cell>, sprites: Seq<SpriteId>, t: int) -> Seq<SpriteId>
        decreases t,
    {
        if t <= 0 {
            self@
        } else {
            self.filled(regions, sprites, t - 1).update(
                self.index(planned_cell(regions, t - 1)),
                sprites[(t - 1) / 2],
            )
        }
    }

    /// The `t`-th fill of the plan lands on an empty cell inside the border.
    pub open spec fn fill_fits(&self, regions: Seq<Cell>, sprites: Seq<SpriteId>, t: int) -> bool {
        let c = planned_cell(regions, t);
        !self.border(c) && self.filled(regions, sprites, t)[self.index(c)] == NO_SPRITE
    }

    /// Row `index` of the board, left to right.
    fn get_row(&self, index: usize) -> (r: Vec<SpriteId>)
        requires
            self.wf(),
            index < self.rows,
        ensures
            r@ == self@.subrange(index * self.columns, (index + 1) * self.columns),
    {
        let mut r: Vec<SpriteId> = Vec::new();
        let mut x: usize = 0;
        assert(index * self.columns + self.columns <= self.columns * self.rows) by (nonlinear_arith)
            requires
                index < self.rows,
                self.columns >= 0,
        ;
        assert(0 <= index * self.columns) by (nonlinear_arith);
        while x < self.columns
            invariant
                self.wf(),
                index < self.rows,
                0 <= index * self.columns,
                index * self.columns + self.columns <= self@.len(),
                x <= self.columns,
                r@ =~= self@.subrange(index * self.columns, index * self.columns + x),
            decreases self.columns - x,
        {
            let cell = Cell { column: x, row: index };
            proof {
                self.lemma_valid_index(cell);
            }
            r.push(self.get_sprite(&cell));
            x = x + 1;
        }
        assert((index + 1) * self.columns == index * self.columns + self.columns) by (nonlinear_arith);
        r
    }

    /// All rows of the board, top to bottom.
    pub fn get_rows(&self) -> (r: Vec<Vec<SpriteId>>)
        requires
            self.wf(),
        ensures
            r@.len() == self.rows,
            forall|y: int|
                0 <= y < self.rows ==> (#[trigger] r@[y])@ == self@.subrange(
                    y * self.columns,
                    (y + 1) * self.columns,
                ),
    {
        let mut r: Vec<Vec<SpriteId>> = Vec::new();
        let mut y: usize = 0;
        while y < self.rows
            invariant
                self.wf(),
                y <= self.rows,
                r@.len() == y,
                forall|k: int|
                    0 <= k < y ==> (#[trigger] r@[k])@ == self@.subrange(
                        k * self.columns,
                        (k + 1) * self.columns,
                    ),
            decreases self.rows - y,
        {
            r.push(self.get_row(y));
            y = y + 1;
        }
        r
    }

    /// The cells inside the border, column by column, each top to bottom.
    pub fn mutable_cells(&self) -> (r: Vec<Cell>)
        requires
            self.wf(),
        ensures
            r@ == interior_cells(self.columns - 1, self.rows as int),
    {
        let mut r: Vec<Cell> = Vec::new();
        let mut column: usize = 1;
        while column < self.columns - 1
            invariant
                self.wf(),
                1 <= column <= self.columns - 1,
                r@ == interior_cells(column as int, self.rows as int),
            decreases self.columns - column,
        {
            let ghost before = r@;
            let mut row: usize = 1;
            while row < self.rows - 1
                invariant
                    self.wf(),
                    1 <= column < self.columns - 1,
                    1 <= row <= self.rows - 1,
                    r@ =~= before + column_cells(column as int, self.rows as int).subrange(0, row - 1),
                decreases self.rows - row,
            {
                r.push(Cell { column, row });
                row = row + 1;
            }
            assert(column_cells(column as int, self.rows as int).subrange(0, self.rows - 2) =~= column_cells(
                column as int,
                self.rows as int,
            ));
            column = column + 1;
        }
        r
    }

    /// Put the sprites in pairs on the cells of `regions`, taken from its
    /// back: two cells for each sprite, while two cells remain. Stops at the
    /// first cell that is on the border or occupied, and reports it.
    pub fn fill_regions(&mut self, regions: &mut Vec<Cell>, sprites: &[SpriteId]) -> (r: Result<(), &'static str>)
        requires
            old(self).wf(),
            forall|i: int| 0 <= i < old(regions)@.len() ==> old(self).valid(#[trigger] old(regions)@[i]),
        ensures
            final(self).wf(),
            final(self).columns == old(self).columns,
            final(self).rows == old(self).rows,
            ({
                let plan = old(regions)@;
                let total = planned_fills(plan, sprites@);
                &&& r is Ok <==> forall|t: int| 0 <= t < total ==> old(self).fill_fits(plan, sprites@, t)
                &&& r is Ok ==> final(self)@ == old(self).filled(plan, sprites@, total) && final(regions)@
                    == plan.subrange(0, plan.len() - total)
                &&& r is Err ==> exists|t: int|
                    0 <= t < total && !old(self).fill_fits(plan, sprites@, t) && (forall|u: int|
                        0 <= u < t ==> old(self).fill_fits(plan, sprites@, u)) && final(self)@ == old(self).filled(
                        plan,
                        sprites@,
                        t,
                    ) && final(regions)@ == plan.subrange(0, plan.len() - 1 - t) && r == Err::<(), &'static str>(
                        if old(self).border(planned_cell(plan, t)) {
                            "cell is at border"
                        } else {
                            "cell is occupied"
                        },
                    )
            }),
    {
        let ghost m0 = *self;
        let ghost plan = regions@;
        let ghost total = planned_fills(plan, sprites@);
        let n = regions.len();
        let mut s: usize = 0;
        let mut t: usize = 0;
        while s < sprites.len() && regions.len() >= 2
            invariant
                self.wf(),
                self.columns == m0.columns,
                self.rows == m0.rows,
                m0 == *old(self),
                m0.wf(),
                plan == old(regions)@,
                total == planned_fills(plan, sprites@),
                n == plan.len(),
                forall|i: int| 0 <= i < plan.len() ==> m0.valid(#[trigger] plan[i]),
                t == 2 * s,
                s <= sprites@.len(),
                t <= plan.len(),
                t <= total,
                regions@ == plan.subrange(0, plan.len() - t),
                self@ == m0.filled(plan, sprites@, t as int),
                forall|u: int| 0 <= u < t ==> m0.fill_fits(plan, sprites@, u),
            decreases sprites@.len() - s,
        {
            let sprite = sprites[s];
            let mut k: usize = 0;
            while k < 2
                invariant
                    self.wf(),
                    self.columns == m0.columns,
                    self.rows == m0.rows,
                    m0 == *old(self),
                    m0.wf(),
                    plan == old(regions)@,
                    total == planned_fills(plan, sprites@),
                    n == plan.len(),
                    forall|i: int| 0 <= i < plan.len() ==> m0.valid(#[trigger] plan[i]),
                    s < sprites@.len(),
                    sprite == sprites@[s as int],
                    k <= 2,
                    t == 2 * s + k,
                    2 * s + 2 <= plan.len(),
                    2 * s + 2 <= total,
                    regions@ == plan.subrange(0, plan.len() - t),
                    self@ == m0.filled(plan, sprites@, t as int),
                    forall|u: int| 0 <= u < t ==> m0.fill_fits(plan, sprites@, u),
                decreases 2 - k,
            {
                let cell = regions.pop().unwrap();
                assert(cell == planned_cell(plan, t as int));
                match self.fill_cell(&cell, sprite) {
                    Ok(()) => {},
                    Err(e) => {
                        assert(!m0.fill_fits(plan, sprites@, t as int));
                        assert(self.border(cell) == m0.border(cell));
                        assert(regions@ =~= plan.subrange(0, plan.len() - 1 - t));
                        return Err(e);
                    },
                }
                assert(regions@ =~= plan.subrange(0, plan.len() - (t + 1)));
                t = t + 1;
                k = k + 1;
            }
            s = s + 1;
        }
        assert(t == total);
        Ok(())
    }
}

} // verus!
