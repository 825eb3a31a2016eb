use vstd::prelude::*;

verus! {

/// One of the four directions of travel on the board.
#[derive(Debug, Clone, Copy, PartialEq, Eq, Hash, Structural)]
pub enum Direction {
    Up,
    Down,
    Left,
    Right,
}

/// The line that a direction travels along: a column (vertical) or a row
/// (horizontal).
#[derive(Debug, Clone, Copy, PartialEq, Eq, Structural)]
pub enum Axis {
    Column,
    Row,
}

pub open spec fn opposite(a: Direction, b: Direction) -> bool {
    match (a, b) {
        (Direction::Up, Direction::Down) | (Direction::Down, Direction::Up) => true,
        (Direction::Left, Direction::Right) | (Direction::Right, Direction::Left) => true,
        _ => false,
    }
}

pub open spec fn axis_of(d: Direction) -> Axis {
    match d {
        Direction::Up | Direction::Down => Axis::Column,
        Direction::Left | Direction::Right => Axis::Row,
    }
}

impl Direction {
    pub fn is_opposite(&self, other: &Self) -> (r: bool)
        ensures
            r == opposite(*self, *other),
    {
        match (self, other) {
            (Direction::Up, Direction::Down) | (Direction::Down, Direction::Up) => true,
            (Direction::Left, Direction::Right) | (Direction::Right, Direction::Left) => true,
            _ => false,
        }
    }

    pub fn axis(&self) -> (r: Axis)
        ensures
            r == axis_of(*self),
    {
        match self {
            Direction::Up | Direction::Down => Axis::Column,
            Direction::Left | Direction::Right => Axis::Row,
        }
    }
}

/// A position on the board: a column and a row, both counted from the top
/// left corner.
#[derive(Debug, Default, Clone, Copy, PartialEq, Eq, PartialOrd, Ord, Hash, Structural)]
pub struct Cell {
    pub column: usize,
    pub row: usize,
}

/// The cell one step away in direction `d`. Stepping off the low edge wraps to
/// `usize::MAX`, stepping off the high edge wraps to 0: such a cell is never
/// inside a board.
pub open spec fn step(c: Cell, d: Direction) -> Cell {
    match d {
        Direction::Up => Cell {
            column: c.column,
            row: if c.row == 0 { usize::MAX } else { (c.row - 1) as usize },
        },
        Direction::Down => Cell {
            column: c.column,
            row: if c.row == usize::MAX { 0 } else { (c.row + 1) as usize },
        },
        Direction::Left => Cell {
            column: if c.column == 0 { usize::MAX } else { (c.column - 1) as usize },
            row: c.row,
        },
        Direction::Right => Cell {
            column: if c.column == usize::MAX { 0 } else { (c.column + 1) as usize },
            row: c.row,
        },
    }
}

/// The cell reached after `n` steps in direction `d`.
pub open spec fn step_n(c: Cell, d: Direction, n: nat) -> Cell
    decreases n,
{
    if n == 0 {
        c
    } else {
        step(step_n(c, d, (n - 1) as nat), d)
    }
}

/// Whether a step in direction `d` stays on non-negative coordinates without
/// wrapping.
pub open spec fn step_stays(c: Cell, d: Direction) -> bool {
    match d {
        Direction::Up => c.row > 0,
        Direction::Down => c.row < usize::MAX,
        Direction::Left => c.column > 0,
        Direction::Right => c.column < usize::MAX,
    }
}

/// The neighbours of a cell in the order up, down, left, right, leaving out
/// those whose coordinates would wrap.
pub open spec fn neighbour_list(c: Cell) -> Seq<(Direction, Cell)> {
    let up = if step_stays(c, Direction::Up) {
        seq![(Direction::Up, step(c, Direction::Up))]
    } else {
        Seq::empty()
    };
    let down = if step_stays(c, Direction::Down) {
        seq![(Direction::Down, step(c, Direction::Down))]
    } else {
        Seq::empty()
    };
    let left = if step_stays(c, Direction::Left) {
        seq![(Direction::Left, step(c, Direction::Left))]
    } else {
        Seq::empty()
    };
    let right = if step_stays(c, Direction::Right) {
        seq![(Direction::Right, step(c, Direction::Right))]
    } else {
        Seq::empty()
    };
    up + down + left + right
}

/// The direction that leads from `a` to `b` along their shared column or row,
/// when they share exactly one of them.
pub open spec fn direction_between(a: Cell, b: Cell) -> Option<Direction> {
    if a.column == b.column && a.row != b.row {
        if a.row < b.row {
            Some(Direction::Down)
        } else {
            Some(Direction::Up)
        }
    } else if a.column != b.column && a.row == b.row {
        if a.column < b.column {
            Some(Direction::Right)
        } else {
            Some(Direction::Left)
        }
    } else {
        None
    }
}

/// Squared Euclidean distance between two cells.
pub open spec fn dist_sqr(a: Cell, b: Cell) -> int {
    (a.column - b.column) * (a.column - b.column) + (a.row - b.row) * (a.row - b.row)
}

/// Largest coordinate for which squared distances fit in a signed machine word.
pub const COORD_LIMIT: usize = 0x3fff;

/// Where `k` steps lead from a cell with small coordinates: the coordinate
/// that moves changes by `k`, and a step below zero wraps far beyond any board.
pub proof fn lemma_step_n(o: Cell, d: Direction, k: nat)
    requires
        o.column <= COORD_LIMIT,
        o.row <= COORD_LIMIT,
        k <= COORD_LIMIT,
    ensures
        d == Direction::Up ==> step_n(o, d, k).column == o.column && (k <= o.row ==> step_n(
            o,
            d,
            k,
        ).row == o.row - k) && (k > o.row ==> step_n(o, d, k).row == usize::MAX - (k - o.row
            - 1)),
        d == Direction::Down ==> step_n(o, d, k) == (Cell { column: o.column, row: (o.row + k) as usize }),
        d == Direction::Left ==> step_n(o, d, k).row == o.row && (k <= o.column ==> step_n(
            o,
            d,
            k,
        ).column == o.column - k) && (k > o.column ==> step_n(o, d, k).column == usize::MAX - (k
            - o.column - 1)),
        d == Direction::Right ==> step_n(o, d, k) == (Cell {
            column: (o.column + k) as usize,
            row: o.row,
        }),
    decreases k,
{
    if k > 0 {
        lemma_step_n(o, d, (k - 1) as nat);
    }
}

impl Cell {
    pub fn direction_to(&self, other: &Self) -> (r: Option<Direction>)
        ensures
            r == direction_between(*self, *other),
    {
        if self.column == other.column && self.row != other.row {
            if self.row < other.row {
                Some(Direction::Down)
            } else {
                Some(Direction::Up)
            }
        } else if self.column != other.column && self.row == other.row {
            if self.column < other.column {
                Some(Direction::Right)
            } else {
                Some(Direction::Left)
            }
        } else {
            None
        }
    }

    pub fn neighbour(&self, direction: &Direction) -> (r: Self)
        ensures
            r == step(*self, *direction),
    {
        match direction {
            Direction::Up => Cell {
                column: self.column,
                row: if self.row == 0 { usize::MAX } else { self.row - 1 },
            },
            Direction::Down => Cell {
                column: self.column,
                row: if self.row == usize::MAX { 0 } else { self.row + 1 },
            },
            Direction::Left => Cell {
                column: if self.column == 0 { usize::MAX } else { self.column - 1 },
                row: self.row,
            },
            Direction::Right => Cell {
                column: if self.column == usize::MAX { 0 } else { self.column + 1 },
                row: self.row,
            },
        }
    }

    /// The neighbouring cells with the direction that leads to each, in the
    /// order up, down, left, right; a neighbour whose coordinate would leave
    /// the range of `usize` is left out.
    pub fn neighbours(&self) -> (r: Vec<(Direction, Self)>)
        ensures
            r@ == neighbour_list(*self),
    {
        let mut r: Vec<(Direction, Self)> = Vec::new();
        if self.row > 0 {
            r.push((Direction::Up, self.neighbour(&Direction::Up)));
        }
        if self.row < usize::MAX {
            r.push((Direction::Down, self.neighbour(&Direction::Down)));
        }
        if self.column > 0 {
            r.push((Direction::Left, self.neighbour(&Direction::Left)));
        }
        if self.column < usize::MAX {
            r.push((Direction::Right, self.neighbour(&Direction::Right)));
        }
        assert(r@ =~= neighbour_list(*self));
        r
    }

    pub fn is_neighbour(&self, other: &Self) -> (r: bool)
        ensures
            r == exists|i: int|
                0 <= i < neighbour_list(*self).len() && (#[trigger] neighbour_list(*self)[i]).1
                    == *other,
    {
        let list = self.neighbours();
        let mut i: usize = 0;
        while i < list.len()
            invariant
                list@ == neighbour_list(*self),
                i <= list@.len(),
                forall|j: int| 0 <= j < i ==> (#[trigger] list@[j]).1 != *other,
            decreases list@.len() - i,
        {
            if list[i].1 == *other {
                assert(neighbour_list(*self)[i as int].1 == *other);
                return true;
            }
            i = i + 1;
        }
        false
    }

    /// The first `count` cells met when walking from this cell in `direction`,
    /// not counting the cell itself.
    pub fn walk(&self, direction: Direction, count: usize) -> (r: Vec<Self>)
        ensures
            r@.len() == count,
            forall|i: int| 0 <= i < count ==> #[trigger] r@[i] == step_n(*self, direction, (i + 1) as nat),
    {
        let mut r: Vec<Self> = Vec::new();
        let mut cur = self.neighbour(&direction);
        assert(step_n(*self, direction, 1) == step(step_n(*self, direction, 0), direction));
        while r.len() < count
            invariant
                r@.len() <= count,
                cur == step_n(*self, direction, (r@.len() + 1) as nat),
                forall|i: int| 0 <= i < r@.len() ==> #[trigger] r@[i] == step_n(*self, direction, (i + 1) as nat),
            decreases count - r@.len(),
        {
            r.push(cur);
            cur = cur.neighbour(&direction);
        }
        r
    }

    /// Squared Euclidean distance to `other`.
    pub fn distance_sqr(&self, other: &Self) -> (r: isize)
        requires
            self.column <= COORD_LIMIT,
            self.row <= COORD_LIMIT,
            other.column <= COORD_LIMIT,
            other.row <= COORD_LIMIT,
        ensures
            r == dist_sqr(*self, *other),
    {
        let dc = self.column as isize - other.column as isize;
        let dr = self.row as isize - other.row as isize;
        assert(dc * dc <= 0x1000_0000) by (nonlinear_arith)
            requires
                -0x4000 <= dc <= 0x4000,
        ;
        assert(dr * dr <= 0x1000_0000) by (nonlinear_arith)
            requires
                -0x4000 <= dr <= 0x4000,
        ;
        assert(dc * dc >= 0 && dr * dr >= 0) by (nonlinear_arith);
        dc * dc + dr * dr
    }
}

} // verus!
