use vstd::prelude::*;

use crate::cell::COORD_LIMIT;

verus! {

/// One of the four directions in which a search spreads from a block.
#[derive(Debug, Clone, Copy, PartialEq, Eq, Structural)]
pub enum Direction {
    UP,
    DOWN,
    LEFT,
    RIGHT,
}

pub open spec fn reverses(a: Direction, b: Direction) -> bool {
    match (a, b) {
        (Direction::UP, Direction::DOWN) | (Direction::DOWN, Direction::UP) => true,
        (Direction::LEFT, Direction::RIGHT) | (Direction::RIGHT, Direction::LEFT) => true,
        _ => false,
    }
}

impl Direction {
    pub fn is_opposite(&self, other: Self) -> (r: bool)
        ensures
            r == reverses(*self, other),
    {
        match (*self, other) {
            (Direction::UP, Direction::DOWN) | (Direction::DOWN, Direction::UP) => true,
            (Direction::LEFT, Direction::RIGHT) | (Direction::RIGHT, Direction::LEFT) => true,
            _ => false,
        }
    }
}

/// A position on the game map: a column and a row.
#[derive(Debug, Clone, Copy, PartialEq, Eq, Structural)]
pub struct Block {
    pub column: usize,
    pub row: usize,
}

/// The neighbours of a block in the order up, down, left, right, leaving out
/// those that would have a negative or too large coordinate.
pub open spec fn block_neighbours(b: Block) -> Seq<(Direction, Block)> {
    let up = if b.row > 0 {
        seq![(Direction::UP, Block { column: b.column, row: (b.row - 1) as usize })]
    } else {
        Seq::empty()
    };
    let down = if b.row < usize::MAX {
        seq![(Direction::DOWN, Block { column: b.column, row: (b.row + 1) as usize })]
    } else {
        Seq::empty()
    };
    let left = if b.column > 0 {
        seq![(Direction::LEFT, Block { column: (b.column - 1) as usize, row: b.row })]
    } else {
        Seq::empty()
    };
    let right = if b.column < usize::MAX {
        seq![(Direction::RIGHT, Block { column: (b.column + 1) as usize, row: b.row })]
    } else {
        Seq::empty()
    };
    up + down + left + right
}

/// The place of a direction in the order up, down, left, right.
pub open spec fn dir_rank(d: Direction) -> int {
    match d {
        Direction::UP => 0,
        Direction::DOWN => 1,
        Direction::LEFT => 2,
        Direction::RIGHT => 3,
    }
}

/// Which of four consecutive parts, ending at `a`, `b`, `c` and beyond,
/// holds index `k`.
spec fn part_of(k: int, a: int, b: int, c: int) -> int {
    if k < a {
        0
    } else if k < b {
        1
    } else if k < c {
        2
    } else {
        3
    }
}

/// The neighbours come in the order up, down, left, right, and no two share
/// a position.
pub proof fn lemma_neighbour_order(b: Block)
    ensures
        forall|i: int, j: int|
            0 <= i < j < block_neighbours(b).len() ==> dir_rank(#[trigger] block_neighbours(b)[i].0)
                < dir_rank(#[trigger] block_neighbours(b)[j].0) && block_neighbours(b)[i].1
                != block_neighbours(b)[j].1,
{
    let nb = block_neighbours(b);
    let up = if b.row > 0 {
        seq![(Direction::UP, Block { column: b.column, row: (b.row - 1) as usize })]
    } else {
        Seq::empty()
    };
    let down = if b.row < usize::MAX {
        seq![(Direction::DOWN, Block { column: b.column, row: (b.row + 1) as usize })]
    } else {
        Seq::empty()
    };
    let left = if b.column > 0 {
        seq![(Direction::LEFT, Block { column: (b.column - 1) as usize, row: b.row })]
    } else {
        Seq::empty()
    };
    let right = if b.column < usize::MAX {
        seq![(Direction::RIGHT, Block { column: (b.column + 1) as usize, row: b.row })]
    } else {
        Seq::empty()
    };
    let ud = up + down;
    let udl = ud + left;
    assert(nb == udl + right);
    let a1 = up.len() as int;
    let a2 = ud.len() as int;
    let a3 = udl.len() as int;
    assert forall|k: int| 0 <= k < nb.len() implies dir_rank(#[trigger] nb[k].0) == part_of(k, a1, a2, a3) by {
        if k < a3 {
            if k < a2 {
                if k < a1 {
                    assert(nb[k] == up[k]);
                } else {
                    assert(nb[k] == down[k - a1]);
                }
            } else {
                assert(nb[k] == left[k - a2]);
            }
        } else {
            assert(nb[k] == right[k - a3]);
        }
    }
    assert forall|i: int, j: int| 0 <= i < j < nb.len() implies dir_rank(#[trigger] nb[i].0) < dir_rank(
        #[trigger] nb[j].0,
    ) && nb[i].1 != nb[j].1 by {
        assert(dir_rank(nb[i].0) == part_of(i, a1, a2, a3));
        assert(dir_rank(nb[j].0) == part_of(j, a1, a2, a3));
        let ri = dir_rank(nb[i].0);
        let rj = dir_rank(nb[j].0);
        if ri == 0 { assert(nb[i] == up[i]); }
        if ri == 1 { assert(nb[i] == down[i - a1]); }
        if ri == 2 { assert(nb[i] == left[i - a2]); }
        if ri == 3 { assert(nb[i] == right[i - a3]); }
        if rj == 0 { assert(nb[j] == up[j]); }
        if rj == 1 { assert(nb[j] == down[j - a1]); }
        if rj == 2 { assert(nb[j] == left[j - a2]); }
        if rj == 3 { assert(nb[j] == right[j - a3]); }
    }
}

pub open spec fn block_dist_sqr(a: Block, b: Block) -> int {
    (a.column - b.column) * (a.column - b.column) + (a.row - b.row) * (a.row - b.row)
}

/// Both coordinates are small enough for squared distances.
pub open spec fn block_small(b: Block) -> bool {
    b.column <= COORD_LIMIT && b.row <= COORD_LIMIT
}

impl Block {
    pub fn new(column: usize, row: usize) -> (r: Block)
        ensures
            r == (Block { column, row }),
    {
        Block { column, row }
    }

    /// Generate neighbour blocks, in the order up, down, left, right.
    pub fn neighbours(&self) -> (r: Vec<(Direction, Self)>)
        ensures
            r@ == block_neighbours(*self),
    {
        let mut r: Vec<(Direction, Self)> = Vec::new();
        if self.row > 0 {
            r.push((Direction::UP, Block { column: self.column, row: self.row - 1 }));
        }
        if self.row < usize::MAX {
            r.push((Direction::DOWN, Block { column: self.column, row: self.row + 1 }));
        }
        if self.column > 0 {
            r.push((Direction::LEFT, Block { column: self.column - 1, row: self.row }));
        }
        if self.column < usize::MAX {
            r.push((Direction::RIGHT, Block { column: self.column + 1, row: self.row }));
        }
        assert(r@ =~= block_neighbours(*self));
        r
    }

    /// Squared Euclidean distance to `other`.
    pub fn distance_sqr(&self, other: &Self) -> (r: i64)
        requires
            block_small(*self),
            block_small(*other),
        ensures
            r == block_dist_sqr(*self, *other),
    {
        let dc = self.column as i64 - other.column as i64;
        let dr = self.row as i64 - other.row as i64;
        assert(0 <= dc * dc <= 0x1000_0000) by (nonlinear_arith)
            requires
                -0x4000 <= dc <= 0x4000,
        ;
        assert(0 <= dr * dr <= 0x1000_0000) by (nonlinear_arith)
            requires
                -0x4000 <= dr <= 0x4000,
        ;
        dc * dc + dr * dr
    }
}

} // verus!
