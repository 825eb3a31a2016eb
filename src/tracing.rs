use vstd::prelude::*;

use crate::cell::{
    axis_of, direction_between, lemma_step_n, step_n, Axis, Cell, Direction, COORD_LIMIT,
};
use crate::mapping::{Mapping, MAX_SIDE, NO_SPRITE};

verus! {

/// A ray cast from a cell: the number of free cells met when walking from
/// `origin` in `direction`, before the first cell that is off the board or
/// occupied.
#[derive(Debug, Clone, Copy)]
pub struct Path {
    /// The origin of travel path
    pub origin: Cell,
    /// Direction of travel
    pub direction: Direction,
    /// Number of free cells on the path
    pub free_cells: usize,
}

/// The four rays cast from one cell, in the order up, down, left, right.
pub struct RayCast {
    pub origin: Cell,
    pub casts: Vec<Path>,
}

/// The first `n` cells after `o` in direction `d` are all free.
pub open spec fn run_free(m: Mapping, o: Cell, d: Direction, n: nat) -> bool {
    forall|k: nat| 1 <= k <= n ==> m.free(#[trigger] step_n(o, d, k))
}

/// `n` is the length of the free run from `o` in direction `d`.
pub open spec fn is_run(m: Mapping, o: Cell, d: Direction, n: nat) -> bool {
    run_free(m, o, d, n) && !m.free(step_n(o, d, n + 1))
}

/// The length of the free run from `o` in direction `d`.
pub open spec fn run_len(m: Mapping, o: Cell, d: Direction) -> nat {
    choose|n: nat| is_run(m, o, d, n)
}

/// The ray cast from `o` in direction `d` on board `m`.
pub open spec fn ray(m: Mapping, o: Cell, d: Direction) -> Path {
    Path { origin: o, direction: d, free_cells: run_len(m, o, d) as usize }
}

/// The four rays cast from `o`, in the order up, down, left, right.
pub open spec fn rays(m: Mapping, o: Cell) -> Seq<Path> {
    seq![ray(m, o, Direction::Up), ray(m, o, Direction::Down), ray(m, o, Direction::Left), ray(m, o, Direction::Right)]
}

/// The coordinates of a path are small enough for its arithmetic, and a path
/// towards zero is no longer than the distance to zero.
pub open spec fn path_ok(p: Path) -> bool {
    &&& p.origin.column <= MAX_SIDE
    &&& p.origin.row <= MAX_SIDE
    &&& p.free_cells <= MAX_SIDE
    &&& p.direction == Direction::Up ==> p.free_cells <= p.origin.row
    &&& p.direction == Direction::Left ==> p.free_cells <= p.origin.column
}

/// The cell after the last free cell of a path: the obstacle that stops it.
pub open spec fn obstacle(p: Path) -> Cell {
    step_n(p.origin, p.direction, (p.free_cells + 1) as nat)
}

/// Whether `c` is one of the free cells of path `p`.
pub open spec fn on_path(p: Path, c: Cell) -> bool {
    exists|k: nat| 1 <= k <= p.free_cells && #[trigger] step_n(p.origin, p.direction, k) == c
}

/// The range of rows (for a vertical path) or columns (for a horizontal one)
/// that the free cells of a path cover; empty when `lo > hi`.
pub open spec fn reflection(p: Path) -> (int, int) {
    match p.direction {
        Direction::Up => (p.origin.row - p.free_cells, p.origin.row - 1),
        Direction::Down => (p.origin.row + 1, p.origin.row + p.free_cells),
        Direction::Left => (p.origin.column - p.free_cells, p.origin.column - 1),
        Direction::Right => (p.origin.column + 1, p.origin.column + p.free_cells),
    }
}

pub open spec fn same_line_spec(p: Path, q: Path) -> bool {
    let same_column = p.origin.column == q.origin.column;
    let same_row = p.origin.row == q.origin.row;
    (same_column && same_row) || (axis_of(p.direction) == Axis::Column && axis_of(q.direction)
        == Axis::Column && same_column) || (axis_of(p.direction) == Axis::Row && axis_of(
        q.direction,
    ) == Axis::Row && same_row)
}

/// The corner where a vertical and a horizontal path would meet, if both
/// reach it.
pub open spec fn crossed_of(p: Path, q: Path) -> Option<Cell> {
    let corner = if axis_of(p.direction) == Axis::Column && axis_of(q.direction) == Axis::Row {
        Some(Cell { column: p.origin.column, row: q.origin.row })
    } else if axis_of(p.direction) == Axis::Row && axis_of(q.direction) == Axis::Column {
        Some(Cell { column: q.origin.column, row: p.origin.row })
    } else {
        None
    };
    match corner {
        Some(c) => if on_path(p, c) && on_path(q, c) {
            Some(c)
        } else {
            None
        },
        None => None,
    }
}

/// Distance between two cells that share a row or a column: the number of
/// steps from one to the other.
pub open spec fn span(a: Cell, b: Cell) -> int {
    let dc = if a.column >= b.column { a.column - b.column } else { b.column - a.column };
    let dr = if a.row >= b.row { a.row - b.row } else { b.row - a.row };
    dc + dr
}

/// Every cell strictly between `start` and `stop`, which share a row or a
/// column and differ, is free.
pub open spec fn span_free(m: Mapping, start: Cell, stop: Cell) -> bool {
    match direction_between(start, stop) {
        Some(d) => forall|k: nat| 1 <= k < span(start, stop) ==> m.free(#[trigger] step_n(start, d, k)),
        None => false,
    }
}

/// Where a bridge leaving path `p` at `start` would land on the line of path
/// `q`, if `start` lies level with one of `q`'s free cells.
pub open spec fn pole_for(p: Path, q: Path, start: Cell) -> Option<Cell> {
    let (lo, hi) = reflection(q);
    if axis_of(p.direction) == Axis::Column {
        if lo <= start.row <= hi {
            Some(Cell { column: q.origin.column, row: start.row })
        } else {
            None
        }
    } else {
        if lo <= start.column <= hi {
            Some(Cell { column: start.column, row: q.origin.row })
        } else {
            None
        }
    }
}

/// The bridge that leaves path `p` at its `k`-th free cell, if it lands on
/// `q`'s line over free cells only.
pub open spec fn bridge_at(m: Mapping, p: Path, q: Path, k: nat) -> Option<(Cell, Cell)> {
    let start = step_n(p.origin, p.direction, k);
    match pole_for(p, q, start) {
        Some(stop) => if span_free(m, start, stop) {
            Some((start, stop))
        } else {
            None
        },
        None => None,
    }
}

/// The first bridge along path `p` from its `k`-th free cell on.
pub open spec fn first_bridge_from(m: Mapping, p: Path, q: Path, k: nat) -> Option<(Cell, Cell)>
    decreases p.free_cells + 1 - k,
{
    if k == 0 || k > p.free_cells {
        None
    } else {
        match bridge_at(m, p, q, k) {
            Some(b) => Some(b),
            None => first_bridge_from(m, p, q, k + 1),
        }
    }
}

/// The bridge between two paths: they must share an axis or a line, and the
/// first bridge along `p` is taken.
pub open spec fn path_bridge(m: Mapping, p: Path, q: Path) -> Option<(Cell, Cell)> {
    if axis_of(p.direction) != axis_of(q.direction) && !same_line_spec(p, q) {
        None
    } else {
        first_bridge_from(m, p, q, 1)
    }
}

/// Length of the polyline `a`, `start`, `stop`, `b`. Each of its segments runs
/// along a row or a column, so this is the sum of their Euclidean lengths.
pub open spec fn bridge_score(a: Cell, poles: (Cell, Cell), b: Cell) -> int {
    span(a, poles.0) + span(poles.0, poles.1) + span(poles.1, b)
}

/// Keep the best bridge so far unless `next` is strictly shorter.
pub open spec fn better_bridge(a: Cell, b: Cell, best: Option<(Cell, Cell)>, next: Option<(Cell, Cell)>) -> Option<(Cell, Cell)> {
    match next {
        None => best,
        Some(n) => match best {
            None => Some(n),
            Some(c) => if bridge_score(a, n, b) < bridge_score(a, c, b) {
                Some(n)
            } else {
                Some(c)
            },
        },
    }
}

/// Scan the pairs `(p, qs[j])` for `j` from `j0` on, keeping the best bridge.
pub open spec fn best_with(m: Mapping, a: Cell, b: Cell, p: Path, qs: Seq<Path>, j: int, best: Option<(Cell, Cell)>) -> Option<(Cell, Cell)>
    decreases qs.len() - j,
{
    if j < 0 || j >= qs.len() {
        best
    } else {
        best_with(m, a, b, p, qs, j + 1, better_bridge(a, b, best, path_bridge(m, p, qs[j])))
    }
}

/// Scan all pairs `(ps[i], qs[j])` with `i` from `i0` on, keeping the best
/// bridge; among equally short bridges the first one found stays.
pub open spec fn best_bridge(m: Mapping, a: Cell, b: Cell, ps: Seq<Path>, qs: Seq<Path>, i: int, best: Option<(Cell, Cell)>) -> Option<(Cell, Cell)>
    decreases ps.len() - i,
{
    if i < 0 || i >= ps.len() {
        best
    } else {
        best_bridge(m, a, b, ps, qs, i + 1, best_with(m, a, b, ps[i], qs, 0, best))
    }
}

/// The first crossing corner over the pairs `(p, qs[j])`, `j` from `j` on.
pub open spec fn first_crossed_with(p: Path, qs: Seq<Path>, j: int) -> Option<Cell>
    decreases qs.len() - j,
{
    if j < 0 || j >= qs.len() {
        None
    } else {
        match crossed_of(p, qs[j]) {
            Some(c) => Some(c),
            None => first_crossed_with(p, qs, j + 1),
        }
    }
}

/// The first crossing corner over the pairs `(ps[i], qs[j])` in order.
pub open spec fn first_crossed(ps: Seq<Path>, qs: Seq<Path>, i: int) -> Option<Cell>
    decreases ps.len() - i,
{
    if i < 0 || i >= ps.len() {
        None
    } else {
        match first_crossed_with(ps[i], qs, 0) {
            Some(c) => Some(c),
            None => first_crossed(ps, qs, i + 1),
        }
    }
}

/// Some ray from `a` ends exactly on `b`.
pub open spec fn overlap_found(ps: Seq<Path>, b: Cell) -> bool {
    exists|i: int| 0 <= i < ps.len() && obstacle(#[trigger] ps[i]) == b
}

/// The connection between `a` and `b`: a straight line, else a single turn,
/// else the shortest bridge with two turns, else none.
pub open spec fn connection(m: Mapping, a: Cell, b: Cell) -> Option<Seq<Cell>> {
    let ps = rays(m, a);
    let qs = rays(m, b);
    if overlap_found(ps, b) {
        Some(seq![a, b])
    } else if first_crossed(ps, qs, 0) is Some {
        Some(seq![a, first_crossed(ps, qs, 0)->Some_0, b])
    } else if best_bridge(m, a, b, ps, qs, 0, None) is Some {
        let poles = best_bridge(m, a, b, ps, qs, 0, None)->Some_0;
        Some(seq![a, poles.0, poles.1, b])
    } else {
        None
    }
}

/// A free run has one length only.
pub proof fn lemma_run_unique(m: Mapping, o: Cell, d: Direction, n1: nat, n2: nat)
    requires
        is_run(m, o, d, n1),
        is_run(m, o, d, n2),
    ensures
        n1 == n2,
{
    if n1 < n2 {
        assert(m.free(step_n(o, d, n1 + 1)));
    } else if n2 < n1 {
        assert(m.free(step_n(o, d, n2 + 1)));
    }
}

/// A ray cast on a well-formed board from a cell of the board has small
/// coordinates and stays on the board.
pub proof fn lemma_ray_ok(m: Mapping, o: Cell, d: Direction, n: nat)
    requires
        m.wf(),
        m.valid(o),
        run_free(m, o, d, n),
    ensures
        n < MAX_SIDE,
        d == Direction::Up ==> n <= o.row,
        d == Direction::Down ==> o.row + n < m.rows,
        d == Direction::Left ==> n <= o.column,
        d == Direction::Right ==> o.column + n < m.columns,
{
    if n > 0 {
        let k = if n > COORD_LIMIT { COORD_LIMIT as nat } else { n };
        assert(m.free(step_n(o, d, k)));
        lemma_step_n(o, d, k);
        if d == Direction::Up && n > o.row {
            assert(m.free(step_n(o, d, (o.row + 1) as nat)));
            lemma_step_n(o, d, (o.row + 1) as nat);
        }
        if d == Direction::Left && n > o.column {
            assert(m.free(step_n(o, d, (o.column + 1) as nat)));
            lemma_step_n(o, d, (o.column + 1) as nat);
        }
        lemma_step_n(o, d, k);
    }
}

impl Path {
    /// Reflect path on its axis, yielding the rows (vertical path) or columns
    /// (horizontal path) of its free cells.
    fn axis_reflection(&self) -> (r: (usize, usize))
        requires
            path_ok(*self),
            self.origin.row >= 1,
            self.origin.column >= 1,
        ensures
            r.0 == reflection(*self).0,
            r.1 == reflection(*self).1,
    {
        match self.direction {
            Direction::Up => (self.origin.row - self.free_cells, self.origin.row - 1),
            Direction::Down => (self.origin.row + 1, self.origin.row + self.free_cells),
            Direction::Left => (self.origin.column - self.free_cells, self.origin.column - 1),
            Direction::Right => (self.origin.column + 1, self.origin.column + self.free_cells),
        }
    }

    /// The free cells of the path, nearest first.
    pub fn steps(&self) -> (r: Vec<Cell>)
        ensures
            r@.len() == self.free_cells,
            forall|i: int|
                0 <= i < self.free_cells ==> #[trigger] r@[i] == step_n(
                    self.origin,
                    self.direction,
                    (i + 1) as nat,
                ),
    {
        self.origin.walk(self.direction, self.free_cells)
    }

    /// Whether `c` is one of the free cells of the path.
    fn passes(&self, c: &Cell) -> (r: bool)
        ensures
            r == on_path(*self, *c),
    {
        let steps = self.steps();
        let mut i: usize = 0;
        while i < steps.len()
            invariant
                steps@.len() == self.free_cells,
                forall|j: int|
                    0 <= j < self.free_cells ==> #[trigger] steps@[j] == step_n(
                        self.origin,
                        self.direction,
                        (j + 1) as nat,
                    ),
                i <= steps@.len(),
                forall|k: nat| 1 <= k <= i ==> #[trigger] step_n(self.origin, self.direction, k) != *c,
            decreases steps@.len() - i,
        {
            if steps[i] == *c {
                assert(step_n(self.origin, self.direction, (i + 1) as nat) == *c);
                return true;
            }
            assert(steps@[i as int] == step_n(self.origin, self.direction, (i + 1) as nat));
            i = i + 1;
        }
        false
    }

    /// Check if 2 paths are on the same line.
    fn same_line(&self, other: &Self) -> (r: bool)
        ensures
            r == same_line_spec(*self, *other),
    {
        let same_column = self.origin.column == other.origin.column;
        let same_row = self.origin.row == other.origin.row;
        match (self.direction.axis(), other.direction.axis(), same_column, same_row) {
            (_, _, true, true) => true,
            (Axis::Column, Axis::Column, true, _) => true,
            (Axis::Row, Axis::Row, _, true) => true,
            _ => false,
        }
    }

    /// Whether this path's obstacle is the origin of `other`.
    fn is_overlap(&self, other: &Self) -> (r: bool)
        requires
            path_ok(*self),
        ensures
            r == (obstacle(*self) == other.origin),
    {
        let cells = self.origin.walk(self.direction, self.free_cells + 1);
        cells[self.free_cells] == other.origin
    }

    /// The corner where this path and `other` cross, if both reach it.
    fn find_crossed(&self, other: &Self) -> (r: Option<Cell>)
        ensures
            r == crossed_of(*self, *other),
    {
        let corner = match (self.direction.axis(), other.direction.axis()) {
            (Axis::Column, Axis::Row) => Some(Cell { column: self.origin.column, row: other.origin.row }),
            (Axis::Row, Axis::Column) => Some(Cell { column: other.origin.column, row: self.origin.row }),
            _ => None,
        };
        match corner {
            Some(c) => {
                if self.passes(&c) && other.passes(&c) {
                    Some(c)
                } else {
                    None
                }
            },
            None => None,
        }
    }

    /// The first bridge that joins this path to `other` over free cells of
    /// `mapping`.
    fn find_bridge(&self, other: &Self, mapping: &Mapping) -> (r: Option<(Cell, Cell)>)
        requires
            mapping.wf(),
            path_ok(*self),
            path_ok(*other),
            other.origin.row >= 1,
            other.origin.column >= 1,
        ensures
            r == path_bridge(*mapping, *self, *other),
    {
        if self.direction.axis() != other.direction.axis() && !self.same_line(other) {
            return None;
        }
        let axis = self.direction.axis();
        let (lo, hi) = other.axis_reflection();
        let steps = self.steps();
        let mut i: usize = 0;
        while i < steps.len()
            invariant
                mapping.wf(),
                path_ok(*self),
                steps@.len() == self.free_cells,
                forall|j: int|
                    0 <= j < self.free_cells ==> #[trigger] steps@[j] == step_n(
                        self.origin,
                        self.direction,
                        (j + 1) as nat,
                    ),
                axis == axis_of(self.direction),
                !(axis_of(self.direction) != axis_of(other.direction) && !same_line_spec(*self, *other)),
                path_ok(*other),
                other.origin.row >= 1,
                other.origin.column >= 1,
                lo == reflection(*other).0,
                hi == reflection(*other).1,
                i <= steps@.len(),
                first_bridge_from(*mapping, *self, *other, 1) == first_bridge_from(
                    *mapping,
                    *self,
                    *other,
                    (i + 1) as nat,
                ),
            decreases steps@.len() - i,
        {
            let start = steps[i];
            assert(start == step_n(self.origin, self.direction, (i + 1) as nat));
            proof {
                lemma_step_n(self.origin, self.direction, (i + 1) as nat);
            }
            assert(start.column <= 2 * MAX_SIDE && start.row <= 2 * MAX_SIDE);
            let pole = match axis {
                Axis::Column => if lo <= start.row && start.row <= hi {
                    Some(Cell { column: other.origin.column, row: start.row })
                } else {
                    None
                },
                Axis::Row => if lo <= start.column && start.column <= hi {
                    Some(Cell { column: start.column, row: other.origin.row })
                } else {
                    None
                },
            };
            assert(pole == pole_for(*self, *other, start));
            if let Some(stop) = pole {
                if mapping.span_is_free(&start, &stop) {
                    assert(bridge_at(*mapping, *self, *other, (i + 1) as nat) == Some((start, stop)));
                    return Some((start, stop));
                }
            }
            i = i + 1;
        }
        None
    }
}

/// The casts of a ray set all start at its origin and have small coordinates.
pub open spec fn casts_ok(rc: RayCast) -> bool {
    &&& rc.casts@.len() == 4
    &&& rc.origin.row >= 1
    &&& rc.origin.column >= 1
    &&& forall|i: int|
        0 <= i < rc.casts@.len() ==> (#[trigger] rc.casts@[i]).origin == rc.origin && path_ok(
            rc.casts@[i],
        )
}

impl RayCast {
    fn find_overlap(&self, other: &Self) -> (r: Option<Vec<Cell>>)
        requires
            casts_ok(*self),
            casts_ok(*other),
        ensures
            r is Some <==> overlap_found(self.casts@, other.origin),
            r is Some ==> r->Some_0@ == seq![self.origin, other.origin],
    {
        let mut i: usize = 0;
        while i < self.casts.len()
            invariant
                casts_ok(*self),
                casts_ok(*other),
                i <= self.casts@.len(),
                forall|j: int| 0 <= j < i ==> obstacle(#[trigger] self.casts@[j]) != other.origin,
            decreases self.casts@.len() - i,
        {
            let mut j: usize = 0;
            while j < other.casts.len()
                invariant
                    casts_ok(*self),
                    casts_ok(*other),
                    i < self.casts@.len(),
                    j <= other.casts@.len(),
                    j > 0 ==> obstacle(self.casts@[i as int]) != other.origin,
                    forall|j: int| 0 <= j < i ==> obstacle(#[trigger] self.casts@[j]) != other.origin,
                decreases other.casts@.len() - j,
            {
                if self.casts[i].is_overlap(&other.casts[j]) {
                    assert(obstacle(self.casts@[i as int]) == other.origin);
                    return Some(vec![self.origin, other.origin]);
                }
                j = j + 1;
            }
            i = i + 1;
        }
        None
    }

    fn find_crossed(&self, other: &Self) -> (r: Option<Vec<Cell>>)
        requires
            casts_ok(*self),
            casts_ok(*other),
        ensures
            r is Some <==> first_crossed(self.casts@, other.casts@, 0) is Some,
            r is Some ==> r->Some_0@ == seq![
                self.origin,
                first_crossed(self.casts@, other.casts@, 0)->Some_0,
                other.origin,
            ],
    {
        let ghost ps = self.casts@;
        let ghost qs = other.casts@;
        let mut i: usize = 0;
        while i < self.casts.len()
            invariant
                ps == self.casts@,
                qs == other.casts@,
                i <= ps.len(),
                first_crossed(ps, qs, 0) == first_crossed(ps, qs, i as int),
            decreases ps.len() - i,
        {
            let mut j: usize = 0;
            while j < other.casts.len()
                invariant
                    ps == self.casts@,
                    qs == other.casts@,
                    i < ps.len(),
                    j <= qs.len(),
                    first_crossed(ps, qs, 0) == first_crossed(ps, qs, i as int),
                    first_crossed_with(ps[i as int], qs, 0) == first_crossed_with(ps[i as int], qs, j as int),
                decreases qs.len() - j,
            {
                if let Some(cross_cell) = self.casts[i].find_crossed(&other.casts[j]) {
                    return Some(vec![self.origin, cross_cell, other.origin]);
                }
                j = j + 1;
            }
            i = i + 1;
        }
        None
    }

    fn find_bridge(&self, other: &Self, mapping: &Mapping) -> (r: Option<Vec<Cell>>)
        requires
            mapping.wf(),
            casts_ok(*self),
            casts_ok(*other),
        ensures
            r is Some <==> best_bridge(*mapping, self.origin, other.origin, self.casts@, other.casts@, 0, None) is Some,
            r is Some ==> ({
                let poles = best_bridge(*mapping, self.origin, other.origin, self.casts@, other.casts@, 0, None)->Some_0;
                r->Some_0@ == seq![self.origin, poles.0, poles.1, other.origin]
            }),
    {
        let ghost ps = self.casts@;
        let ghost qs = other.casts@;
        let ghost m = *mapping;
        let ghost a = self.origin;
        let ghost b = other.origin;
        let mut best: Option<(Cell, Cell)> = None;
        let mut best_score: usize = 0;
        let mut i: usize = 0;
        while i < self.casts.len()
            invariant
                mapping.wf(),
                casts_ok(*self),
                casts_ok(*other),
                m == *mapping,
                ps == self.casts@,
                qs == other.casts@,
                a == self.origin,
                b == other.origin,
                i <= ps.len(),
                best_bridge(m, a, b, ps, qs, 0, None) == best_bridge(m, a, b, ps, qs, i as int, best),
                best is Some ==> best_score == bridge_score(a, best->Some_0, b),
                best is Some ==> bridge_parts_small(best->Some_0),
            decreases ps.len() - i,
        {
            let mut j: usize = 0;
            while j < other.casts.len()
                invariant
                    mapping.wf(),
                    casts_ok(*self),
                    casts_ok(*other),
                    m == *mapping,
                    ps == self.casts@,
                    qs == other.casts@,
                    a == self.origin,
                    b == other.origin,
                    i < ps.len(),
                    j <= qs.len(),
                    best_bridge(m, a, b, ps, qs, 0, None) == best_bridge(
                        m,
                        a,
                        b,
                        ps,
                        qs,
                        i + 1,
                        best_with(m, a, b, ps[i as int], qs, j as int, best),
                    ),
                    best is Some ==> best_score == bridge_score(a, best->Some_0, b),
                    best is Some ==> bridge_parts_small(best->Some_0),
                decreases qs.len() - j,
            {
                let found = self.casts[i].find_bridge(&other.casts[j], mapping);
                proof {
                    lemma_bridge_small(m, ps[i as int], qs[j as int]);
                }
                if let Some(poles) = found {
                    let score = cell_span(&self.origin, &poles.0) + cell_span(&poles.0, &poles.1)
                        + cell_span(&poles.1, &other.origin);
                    match best {
                        None => {
                            best = Some(poles);
                            best_score = score;
                        },
                        Some(_) => {
                            if score < best_score {
                                best = Some(poles);
                                best_score = score;
                            }
                        },
                    }
                }
                j = j + 1;
            }
            i = i + 1;
        }
        match best {
            Some(poles) => Some(vec![self.origin, poles.0, poles.1, other.origin]),
            None => None,
        }
    }
}

/// Both cells of a bridge have small coordinates.
pub open spec fn bridge_parts_small(poles: (Cell, Cell)) -> bool {
    poles.0.column <= 2 * MAX_SIDE && poles.0.row <= 2 * MAX_SIDE && poles.1.column <= 2
        * MAX_SIDE && poles.1.row <= 2 * MAX_SIDE
}

proof fn lemma_bridge_small(m: Mapping, p: Path, q: Path)
    requires
        path_ok(p),
        path_ok(q),
    ensures
        path_bridge(m, p, q) is Some ==> bridge_parts_small(path_bridge(m, p, q)->Some_0),
{
    if path_bridge(m, p, q) is Some {
        lemma_first_bridge_small(m, p, q, 1);
    }
}

proof fn lemma_first_bridge_small(m: Mapping, p: Path, q: Path, k: nat)
    requires
        path_ok(p),
        path_ok(q),
    ensures
        first_bridge_from(m, p, q, k) is Some ==> bridge_parts_small(
            first_bridge_from(m, p, q, k)->Some_0,
        ),
    decreases p.free_cells + 1 - k,
{
    if k != 0 && k <= p.free_cells {
        lemma_step_n(p.origin, p.direction, k);
        if bridge_at(m, p, q, k) is None {
            lemma_first_bridge_small(m, p, q, k + 1);
        }
    }
}

/// Number of steps between two cells that share a row or a column.
fn cell_span(a: &Cell, b: &Cell) -> (r: usize)
    requires
        a.column <= 2 * MAX_SIDE,
        a.row <= 2 * MAX_SIDE,
        b.column <= 2 * MAX_SIDE,
        b.row <= 2 * MAX_SIDE,
    ensures
        r == span(*a, *b),
        r <= 4 * MAX_SIDE,
{
    let dc = if a.column >= b.column { a.column - b.column } else { b.column - a.column };
    let dr = if a.row >= b.row { a.row - b.row } else { b.row - a.row };
    dc + dr
}

impl Mapping {
    /// Whether every cell strictly between two cells that share a row or a
    /// column is free.
    fn span_is_free(&self, start: &Cell, stop: &Cell) -> (r: bool)
        requires
            self.wf(),
            start.column <= 2 * MAX_SIDE,
            start.row <= 2 * MAX_SIDE,
            stop.column <= 2 * MAX_SIDE,
            stop.row <= 2 * MAX_SIDE,
        ensures
            r == span_free(*self, *start, *stop),
    {
        let direction = match start.direction_to(stop) {
            Some(d) => d,
            None => return false,
        };
        let len = cell_span(start, stop);
        let mut cur = start.neighbour(&direction);
        let mut k: usize = 1;
        assert(step_n(*start, direction, 1) == crate::cell::step(step_n(*start, direction, 0), direction));
        while k < len
            invariant
                self.wf(),
                len == span(*start, *stop),
                direction_between(*start, *stop) == Some(direction),
                len <= 4 * MAX_SIDE,
                1 <= k,
                cur == step_n(*start, direction, k as nat),
                forall|j: nat| 1 <= j < k ==> self.free(#[trigger] step_n(*start, direction, j)),
            decreases len - k,
        {
            if !(self.check_valid_cell(&cur) && self.get_sprite(&cur) == NO_SPRITE) {
                assert(!self.free(step_n(*start, direction, k as nat)));
                assert(direction_between(*start, *stop) == Some(direction));
                assert(1 <= k < span(*start, *stop));
                assert(!span_free(*self, *start, *stop));
                return false;
            }
            k = k + 1;
            cur = cur.neighbour(&direction);
        }
        true
    }

    /// The length of the free run from `origin` in `direction`.
    fn free_run(&self, origin: &Cell, direction: Direction) -> (n: usize)
        requires
            self.wf(),
            self.valid(*origin),
        ensures
            is_run(*self, *origin, direction, n as nat),
            n < MAX_SIDE,
    {
        let mut n: usize = 0;
        let mut cur = origin.neighbour(&direction);
        assert(step_n(*origin, direction, 1) == crate::cell::step(step_n(*origin, direction, 0), direction));
        while self.check_valid_cell(&cur) && self.get_sprite(&cur) == NO_SPRITE
            invariant
                self.wf(),
                self.valid(*origin),
                n < MAX_SIDE,
                cur == step_n(*origin, direction, (n + 1) as nat),
                run_free(*self, *origin, direction, n as nat),
            decreases MAX_SIDE - n,
        {
            assert(run_free(*self, *origin, direction, (n + 1) as nat));
            proof {
                lemma_ray_ok(*self, *origin, direction, (n + 1) as nat);
            }
            n = n + 1;
            cur = cur.neighbour(&direction);
        }
        n
    }

    /// Cast the four rays from `origin`, in the order up, down, left, right.
    fn ray_cast(&self, origin: &Cell) -> (r: RayCast)
        requires
            self.wf(),
            self.valid(*origin),
        ensures
            r.origin == *origin,
            r.casts@ == rays(*self, *origin),
            forall|i: int| 0 <= i < 4 ==> path_ok(#[trigger] r.casts@[i]),
    {
        let mut casts: Vec<Path> = Vec::new();
        let directions = [Direction::Up, Direction::Down, Direction::Left, Direction::Right];
        let mut i: usize = 0;
        while i < 4
            invariant
                self.wf(),
                self.valid(*origin),
                directions@ == seq![Direction::Up, Direction::Down, Direction::Left, Direction::Right],
                i <= 4,
                casts@.len() == i,
                forall|j: int| 0 <= j < i ==> #[trigger] casts@[j] == rays(*self, *origin)[j],
                forall|j: int| 0 <= j < i ==> path_ok(#[trigger] casts@[j]),
            decreases 4 - i,
        {
            let direction = directions[i];
            let n = self.free_run(origin, direction);
            proof {
                lemma_run_unique(*self, *origin, direction, n as nat, run_len(*self, *origin, direction));
                lemma_ray_ok(*self, *origin, direction, n as nat);
                self.lemma_valid_index(*origin);
            }
            casts.push(Path { origin: *origin, direction, free_cells: n });
            i = i + 1;
        }
        assert(casts@ =~= rays(*self, *origin));
        RayCast { origin: *origin, casts }
    }

    /// Find how two cells of the same sprite connect: by a straight line, by a
    /// line with one turn, or by the shortest line with two turns, tried in
    /// that order. When none exists, the error carries the eight rays cast from
    /// the two cells.
    pub fn connect(&self, first_cell: &Cell, second_cell: &Cell) -> (r: Result<Vec<Cell>, (&'static str, Vec<Path>)>)
        requires
            self.wf(),
            self.valid(*first_cell),
            self.valid(*second_cell),
            !self.border(*first_cell),
            !self.border(*second_cell),
        ensures
            match r {
                Ok(v) => connection(*self, *first_cell, *second_cell) == Some(v@),
                Err((msg, paths)) => connection(*self, *first_cell, *second_cell) is None
                    && msg == "Cannot connect" && paths@ == rays(*self, *first_cell) + rays(*self, *second_cell),
            },
    {
        let first_trace = self.ray_cast(first_cell);
        let second_trace = self.ray_cast(second_cell);
        if let Some(connection) = first_trace.find_overlap(&second_trace) {
            return Ok(connection);
        }
        if let Some(connection) = first_trace.find_crossed(&second_trace) {
            return Ok(connection);
        }
        if let Some(connection) = first_trace.find_bridge(&second_trace, self) {
            return Ok(connection);
        }
        let mut paths: Vec<Path> = Vec::new();
        let mut i: usize = 0;
        while i < 4
            invariant
                first_trace.casts@ == rays(*self, *first_cell),
                second_trace.casts@ == rays(*self, *second_cell),
                i <= 4,
                paths@ == rays(*self, *first_cell).subrange(0, i as int),
            decreases 4 - i,
        {
            paths.push(first_trace.casts[i]);
            i = i + 1;
        }
        i = 0;
        while i < 4
            invariant
                first_trace.casts@ == rays(*self, *first_cell),
                second_trace.casts@ == rays(*self, *second_cell),
                i <= 4,
                paths@ == rays(*self, *first_cell) + rays(*self, *second_cell).subrange(0, i as int),
            decreases 4 - i,
        {
            paths.push(second_trace.casts[i]);
            i = i + 1;
        }
        assert(paths@ =~= rays(*self, *first_cell) + rays(*self, *second_cell));
        Err(("Cannot connect", paths))
    }

    /// Whether the board has no move left; the ray casts do not answer this
    /// yet, so it never reports the end.
    pub fn no_more_move(&self) -> (r: bool)
        ensures
            r == false,
    {
        false
    }
}

/// Walking `span(a, b)` steps from `a` towards an aligned `b` lands on `b`.
proof fn lemma_span_reaches(a: Cell, b: Cell, d: Direction)
    requires
        a.column <= MAX_SIDE,
        a.row <= MAX_SIDE,
        b.column <= MAX_SIDE,
        b.row <= MAX_SIDE,
        direction_between(a, b) == Some(d),
    ensures
        1 <= span(a, b) <= MAX_SIDE,
        step_n(a, d, span(a, b) as nat) == b,
{
    lemma_step_n(a, d, span(a, b) as nat);
}

/// The ray cast from `o` in direction `d` has length `n` when `n` is the
/// length of the free run.
proof fn lemma_ray_len(m: Mapping, o: Cell, d: Direction, n: nat)
    requires
        is_run(m, o, d, n),
        n < MAX_SIDE,
    ensures
        ray(m, o, d).free_cells == n,
        obstacle(ray(m, o, d)) == step_n(o, d, n + 1),
{
    assert(is_run(m, o, d, run_len(m, o, d)));
    lemma_run_unique(m, o, d, n, run_len(m, o, d));
}

/// Two cells of the same tile joined by a straight line of free cells connect
/// by that line: `connect` returns just the two cells.
pub proof fn law_straight_line(m: Mapping, a: Cell, b: Cell, d: Direction)
    requires
        m.wf(),
        m.valid(a),
        m.valid(b),
        !m.border(a),
        !m.border(b),
        m.at(a) == m.at(b),
        m.at(b) != NO_SPRITE,
        direction_between(a, b) == Some(d),
        forall|k: nat| 1 <= k < span(a, b) ==> m.free(#[trigger] step_n(a, d, k)),
    ensures
        connection(m, a, b) == Some(seq![a, b]),
{
    lemma_span_reaches(a, b, d);
    let n = (span(a, b) - 1) as nat;
    assert(step_n(a, d, n + 1) == b);
    assert(is_run(m, a, d, n));
    lemma_ray_len(m, a, d, n);
    let ps = rays(m, a);
    let i: int = match d {
        Direction::Up => 0,
        Direction::Down => 1,
        Direction::Left => 2,
        Direction::Right => 3,
    };
    assert(ps[i] == ray(m, a, d));
    assert(obstacle(ps[i]) == b);
    assert(overlap_found(ps, b));
}

/// Where some pair `(ps[i], qs[j])` with `i >= i0` crosses, the first crossing
/// from `i0` on is one of them.
proof fn lemma_first_crossed(ps: Seq<Path>, qs: Seq<Path>, i0: int)
    requires
        0 <= i0,
    ensures
        (exists|i: int, j: int| i0 <= i < ps.len() && 0 <= j < qs.len() && (#[trigger] crossed_of(ps[i], qs[j])) is Some)
            ==> first_crossed(ps, qs, i0) is Some,
        first_crossed(ps, qs, i0) is Some ==> exists|i: int, j: int|
            i0 <= i < ps.len() && 0 <= j < qs.len() && #[trigger] crossed_of(ps[i], qs[j]) == first_crossed(ps, qs, i0),
    decreases ps.len() - i0,
{
    if i0 < ps.len() {
        lemma_first_crossed_with(ps[i0], qs, 0);
        lemma_first_crossed(ps, qs, i0 + 1);
        if exists|i: int, j: int| i0 <= i < ps.len() && 0 <= j < qs.len() && (#[trigger] crossed_of(ps[i], qs[j])) is Some {
            let (i, j) = choose|i: int, j: int| i0 <= i < ps.len() && 0 <= j < qs.len() && (#[trigger] crossed_of(ps[i], qs[j])) is Some;
            if i == i0 {
                assert(first_crossed_with(ps[i0], qs, 0) is Some);
            }
        }
    }
}

proof fn lemma_first_crossed_with(p: Path, qs: Seq<Path>, j0: int)
    requires
        0 <= j0,
    ensures
        (exists|j: int| j0 <= j < qs.len() && (#[trigger] crossed_of(p, qs[j])) is Some) ==> first_crossed_with(p, qs, j0) is Some,
        first_crossed_with(p, qs, j0) is Some ==> exists|j: int|
            j0 <= j < qs.len() && #[trigger] crossed_of(p, qs[j]) == first_crossed_with(p, qs, j0),
    decreases qs.len() - j0,
{
    if j0 < qs.len() {
        lemma_first_crossed_with(p, qs, j0 + 1);
    }
}

/// When a vertical ray of one tile and a horizontal ray of the other meet,
/// the two tiles share neither a row nor a column, so no ray of the first
/// ends on the second.
proof fn lemma_corner_excludes_overlap(m: Mapping, a: Cell, b: Cell, i: int, j: int)
    requires
        m.wf(),
        m.valid(a),
        m.valid(b),
        m.at(a) != NO_SPRITE,
        m.at(b) != NO_SPRITE,
        0 <= i < 4,
        0 <= j < 4,
        crossed_of(rays(m, a)[i], rays(m, b)[j]) is Some,
    ensures
        !overlap_found(rays(m, a), b),
{
    let ps = rays(m, a);
    let qs = rays(m, b);
    lemma_rays_ok(m, a);
    lemma_rays_ok(m, b);
    m.lemma_valid_index(a);
    m.lemma_valid_index(b);
    let p = ps[i];
    let q = qs[j];
    let c = crossed_of(p, q)->Some_0;
    if overlap_found(ps, b) {
        let i0 = choose|i0: int| 0 <= i0 < ps.len() && obstacle(#[trigger] ps[i0]) == b;
        lemma_step_n(a, ps[i0].direction, (ps[i0].free_cells + 1) as nat);
        let same_column = axis_of(ps[i0].direction) == Axis::Column;
        assert(same_column ==> b.column == a.column);
        assert(!same_column ==> b.row == a.row);
        if axis_of(p.direction) == Axis::Column {
            let k = choose|k: nat| 1 <= k <= p.free_cells && #[trigger] step_n(p.origin, p.direction, k) == c;
            lemma_step_n(a, p.direction, k);
            assert(c.row != a.row);
            assert(c == b);
            lemma_on_ray_free(m, a, i, b);
        } else {
            let k = choose|k: nat| 1 <= k <= q.free_cells && #[trigger] step_n(q.origin, q.direction, k) == c;
            lemma_step_n(b, q.direction, k);
            assert(c.row != b.row);
            assert(c == a);
            lemma_on_ray_free(m, b, j, a);
        }
    }
}

/// Where exactly one corner is reached by a vertical ray of one of two
/// cells of the same tile and a horizontal ray of the other, `connect`
/// returns the line through that corner, which lies on a free run of each
/// cell.
pub proof fn law_single_turn(m: Mapping, a: Cell, b: Cell, c: Cell)
    requires
        m.wf(),
        m.valid(a),
        m.valid(b),
        !m.border(a),
        !m.border(b),
        m.at(a) == m.at(b),
        m.at(b) != NO_SPRITE,
        exists|i: int, j: int| 0 <= i < 4 && 0 <= j < 4 && #[trigger] crossed_of(rays(m, a)[i], rays(m, b)[j]) == Some(c),
        forall|i: int, j: int| 0 <= i < 4 && 0 <= j < 4 && (#[trigger] crossed_of(rays(m, a)[i], rays(m, b)[j])) is Some
            ==> crossed_of(rays(m, a)[i], rays(m, b)[j]) == Some(c),
    ensures
        connection(m, a, b) == Some(seq![a, c, b]),
        exists|i: int, j: int|
            0 <= i < 4 && 0 <= j < 4 && on_path(#[trigger] rays(m, a)[i], c) && on_path(#[trigger] rays(m, b)[j], c),
{
    let ps = rays(m, a);
    let qs = rays(m, b);
    let (i, j) = choose|i: int, j: int| 0 <= i < 4 && 0 <= j < 4 && #[trigger] crossed_of(rays(m, a)[i], rays(m, b)[j]) == Some(c);
    lemma_corner_excludes_overlap(m, a, b, i, j);
    lemma_first_crossed(ps, qs, 0);
    assert(crossed_of(ps[i], qs[j]) is Some);
    assert(first_crossed(ps, qs, 0) is Some);
    let (i2, j2) = choose|i2: int, j2: int| 0 <= i2 < ps.len() && 0 <= j2 < qs.len() && #[trigger] crossed_of(ps[i2], qs[j2]) == first_crossed(ps, qs, 0);
    assert(crossed_of(ps[i2], qs[j2]) == Some(c));
    assert(on_path(ps[i], c) && on_path(qs[j], c));
}

/// What a bridge found between the rays `ps` of `a` and `qs` of `b` holds:
/// its first pole lies on one of `ps`, its second on one of `qs`, and every
/// cell strictly between the poles is free.
pub open spec fn sound_bridge(m: Mapping, ps: Seq<Path>, qs: Seq<Path>, poles: (Cell, Cell)) -> bool {
    &&& span_free(m, poles.0, poles.1)
    &&& exists|i: int| 0 <= i < ps.len() && on_path(#[trigger] ps[i], poles.0)
    &&& exists|j: int| 0 <= j < qs.len() && on_path(#[trigger] qs[j], poles.1)
}

/// The landing cell of a bridge that leaves `p` at its `k`-th free cell is
/// one of the free cells of `q`.
proof fn lemma_pole_on_path(p: Path, q: Path, k: nat)
    requires
        path_ok(p),
        path_ok(q),
        1 <= k <= p.free_cells,
        !(axis_of(p.direction) != axis_of(q.direction) && !same_line_spec(p, q)),
        pole_for(p, q, step_n(p.origin, p.direction, k)) is Some,
        pole_for(p, q, step_n(p.origin, p.direction, k))->Some_0 != step_n(p.origin, p.direction, k),
    ensures
        on_path(q, pole_for(p, q, step_n(p.origin, p.direction, k))->Some_0),
{
    let start = step_n(p.origin, p.direction, k);
    let stop = pole_for(p, q, start)->Some_0;
    lemma_step_n(p.origin, p.direction, k);
    if axis_of(p.direction) == axis_of(q.direction) {
        let kq: nat = match q.direction {
            Direction::Up => (q.origin.row - start.row) as nat,
            Direction::Down => (start.row - q.origin.row) as nat,
            Direction::Left => (q.origin.column - start.column) as nat,
            Direction::Right => (start.column - q.origin.column) as nat,
        };
        lemma_step_n(q.origin, q.direction, kq);
        assert(step_n(q.origin, q.direction, kq) == stop);
    }
}

proof fn lemma_first_bridge_sound(m: Mapping, ps: Seq<Path>, i: int, qs: Seq<Path>, j: int, k: nat)
    requires
        0 <= i < ps.len(),
        0 <= j < qs.len(),
        path_ok(ps[i]),
        path_ok(qs[j]),
        !(axis_of(ps[i].direction) != axis_of(qs[j].direction) && !same_line_spec(ps[i], qs[j])),
    ensures
        first_bridge_from(m, ps[i], qs[j], k) is Some ==> sound_bridge(m, ps, qs, first_bridge_from(m, ps[i], qs[j], k)->Some_0),
    decreases ps[i].free_cells + 1 - k,
{
    let p = ps[i];
    let q = qs[j];
    if !(k == 0 || k > p.free_cells) {
        if bridge_at(m, p, q, k) is Some {
            let start = step_n(p.origin, p.direction, k);
            assert(on_path(ps[i], start));
            assert(direction_between(start, pole_for(p, q, start)->Some_0) is Some);
            lemma_pole_on_path(p, q, k);
            assert(on_path(qs[j], pole_for(p, q, start)->Some_0));
        } else {
            lemma_first_bridge_sound(m, ps, i, qs, j, k + 1);
        }
    }
}

proof fn lemma_best_with_sound(m: Mapping, a: Cell, b: Cell, ps: Seq<Path>, i: int, qs: Seq<Path>, j: int, best: Option<(Cell, Cell)>)
    requires
        0 <= i < ps.len(),
        path_ok(ps[i]),
        forall|x: int| 0 <= x < qs.len() ==> path_ok(#[trigger] qs[x]),
        best is Some ==> sound_bridge(m, ps, qs, best->Some_0),
    ensures
        best_with(m, a, b, ps[i], qs, j, best) is Some ==> sound_bridge(m, ps, qs, best_with(m, a, b, ps[i], qs, j, best)->Some_0),
    decreases qs.len() - j,
{
    if !(j < 0 || j >= qs.len()) {
        if !(axis_of(ps[i].direction) != axis_of(qs[j].direction) && !same_line_spec(ps[i], qs[j])) {
            lemma_first_bridge_sound(m, ps, i, qs, j, 1);
        }
        let next = better_bridge(a, b, best, path_bridge(m, ps[i], qs[j]));
        lemma_best_with_sound(m, a, b, ps, i, qs, j + 1, next);
    }
}

proof fn lemma_best_bridge_sound(m: Mapping, a: Cell, b: Cell, ps: Seq<Path>, qs: Seq<Path>, i: int, best: Option<(Cell, Cell)>)
    requires
        forall|x: int| 0 <= x < ps.len() ==> path_ok(#[trigger] ps[x]),
        forall|x: int| 0 <= x < qs.len() ==> path_ok(#[trigger] qs[x]),
        best is Some ==> sound_bridge(m, ps, qs, best->Some_0),
    ensures
        best_bridge(m, a, b, ps, qs, i, best) is Some ==> sound_bridge(m, ps, qs, best_bridge(m, a, b, ps, qs, i, best)->Some_0),
    decreases ps.len() - i,
{
    if !(i < 0 || i >= ps.len()) {
        lemma_best_with_sound(m, a, b, ps, i, qs, 0, best);
        lemma_best_bridge_sound(m, a, b, ps, qs, i + 1, best_with(m, a, b, ps[i], qs, 0, best));
    }
}

/// The rays cast from a cell of a well-formed board have small coordinates.
proof fn lemma_rays_ok(m: Mapping, o: Cell)
    requires
        m.wf(),
        m.valid(o),
    ensures
        forall|x: int| 0 <= x < 4 ==> path_ok(#[trigger] rays(m, o)[x]),
        forall|x: int| 0 <= x < 4 ==> run_free(m, o, (#[trigger] rays(m, o)[x]).direction, rays(m, o)[x].free_cells as nat),
{
    m.lemma_valid_index(o);
    assert forall|x: int| 0 <= x < 4 implies path_ok(#[trigger] rays(m, o)[x]) && run_free(m, o, rays(m, o)[x].direction, rays(m, o)[x].free_cells as nat) by {
        let d = rays(m, o)[x].direction;
        lemma_run_from(m, o, d, 0);
        assert(is_run(m, o, d, run_len(m, o, d)));
        lemma_ray_ok(m, o, d, run_len(m, o, d));
    }
}

/// A free cell of a ray cast on the board is free.
proof fn lemma_on_ray_free(m: Mapping, o: Cell, x: int, c: Cell)
    requires
        m.wf(),
        m.valid(o),
        0 <= x < 4,
        on_path(rays(m, o)[x], c),
    ensures
        m.free(c),
{
    lemma_rays_ok(m, o);
    let p = rays(m, o)[x];
    let k = choose|k: nat| 1 <= k <= p.free_cells && #[trigger] step_n(p.origin, p.direction, k) == c;
    assert(run_free(m, o, p.direction, p.free_cells as nat));
    assert(m.free(step_n(o, p.direction, k)));
}

/// A connection with two turns never passes over an occupied cell or a cell
/// off the board: both turning cells are free, and so is every cell strictly
/// between them.
pub proof fn law_bridge_clear(m: Mapping, a: Cell, b: Cell)
    requires
        m.wf(),
        m.valid(a),
        m.valid(b),
        connection(m, a, b) is Some,
        connection(m, a, b)->Some_0.len() == 4,
    ensures
        ({
            let path = connection(m, a, b)->Some_0;
            &&& m.free(path[1])
            &&& m.free(path[2])
            &&& span_free(m, path[1], path[2])
        }),
{
    let ps = rays(m, a);
    let qs = rays(m, b);
    lemma_rays_ok(m, a);
    lemma_rays_ok(m, b);
    lemma_best_bridge_sound(m, a, b, ps, qs, 0, None);
    let poles = best_bridge(m, a, b, ps, qs, 0, None)->Some_0;
    let i = choose|i: int| 0 <= i < ps.len() && on_path(#[trigger] ps[i], poles.0);
    let j = choose|j: int| 0 <= j < qs.len() && on_path(#[trigger] qs[j], poles.1);
    lemma_on_ray_free(m, a, i, poles.0);
    lemma_on_ray_free(m, b, j, poles.1);
}

/// Every ray on a well-formed board ends: its free run has a length.
proof fn lemma_run_from(m: Mapping, o: Cell, d: Direction, n: nat)
    requires
        m.wf(),
        m.valid(o),
        run_free(m, o, d, n),
    ensures
        exists|r: nat| is_run(m, o, d, r),
    decreases MAX_SIDE - n,
{
    lemma_ray_ok(m, o, d, n);
    if !m.free(step_n(o, d, n + 1)) {
        assert(is_run(m, o, d, n));
    } else {
        assert(run_free(m, o, d, n + 1));
        lemma_run_from(m, o, d, n + 1);
    }
}

/// `c` is an open corner between `a` and `b`: it shares a column with one
/// and a row with the other, differs from both, is free, and every cell
/// strictly between it and `a`, and between it and `b`, is free.
pub open spec fn open_corner(m: Mapping, a: Cell, b: Cell, c: Cell) -> bool {
    &&& (c == Cell { column: a.column, row: b.row } || c == Cell { column: b.column, row: a.row })
    &&& c != a
    &&& c != b
    &&& m.free(c)
    &&& span_free(m, a, c)
    &&& span_free(m, b, c)
}

/// Walking `k` steps from a cell without wrapping leads along one line, in
/// direction `d`, `k` steps away.
proof fn lemma_walk_span(o: Cell, d: Direction, k: nat)
    requires
        o.column <= MAX_SIDE,
        o.row <= MAX_SIDE,
        1 <= k <= MAX_SIDE,
        d == Direction::Up ==> k <= o.row,
        d == Direction::Left ==> k <= o.column,
    ensures
        direction_between(o, step_n(o, d, k)) == Some(d),
        span(o, step_n(o, d, k)) == k,
{
    lemma_step_n(o, d, k);
}

/// The index of direction `d` among the rays of a cell.
spec fn ray_index(d: Direction) -> int {
    match d {
        Direction::Up => 0,
        Direction::Down => 1,
        Direction::Left => 2,
        Direction::Right => 3,
    }
}

/// An open corner lies on the ray from `o` towards it.
proof fn lemma_corner_on_ray(m: Mapping, o: Cell, c: Cell)
    requires
        m.wf(),
        m.valid(o),
        m.valid(c),
        direction_between(o, c) is Some,
        m.free(c),
        span_free(m, o, c),
    ensures
        on_path(rays(m, o)[ray_index(direction_between(o, c)->Some_0)], c),
{
    let d = direction_between(o, c)->Some_0;
    m.lemma_valid_index(o);
    m.lemma_valid_index(c);
    lemma_span_reaches(o, c, d);
    let s = span(o, c) as nat;
    lemma_run_from(m, o, d, 0);
    let n = run_len(m, o, d);
    assert(is_run(m, o, d, n));
    lemma_ray_ok(m, o, d, n);
    if n < s {
        assert(m.free(step_n(o, d, n + 1)));
    }
    let p = rays(m, o)[ray_index(d)];
    assert(p == ray(m, o, d));
    assert(step_n(p.origin, p.direction, s) == c);
}

/// A corner reached by rays of both cells is an open corner.
proof fn lemma_crossed_is_open(m: Mapping, a: Cell, b: Cell, i: int, j: int)
    requires
        m.wf(),
        m.valid(a),
        m.valid(b),
        m.at(a) != NO_SPRITE,
        m.at(b) != NO_SPRITE,
        0 <= i < 4,
        0 <= j < 4,
        crossed_of(rays(m, a)[i], rays(m, b)[j]) is Some,
    ensures
        open_corner(m, a, b, crossed_of(rays(m, a)[i], rays(m, b)[j])->Some_0),
{
    let p = rays(m, a)[i];
    let q = rays(m, b)[j];
    let c = crossed_of(p, q)->Some_0;
    lemma_rays_ok(m, a);
    lemma_rays_ok(m, b);
    m.lemma_valid_index(a);
    m.lemma_valid_index(b);
    lemma_on_ray_free(m, a, i, c);
    let k = choose|k: nat| 1 <= k <= p.free_cells && #[trigger] step_n(p.origin, p.direction, k) == c;
    let l = choose|l: nat| 1 <= l <= q.free_cells && #[trigger] step_n(q.origin, q.direction, l) == c;
    lemma_walk_span(a, p.direction, k);
    lemma_walk_span(b, q.direction, l);
    assert(run_free(m, a, p.direction, p.free_cells as nat));
    assert(run_free(m, b, q.direction, q.free_cells as nat));
    assert forall|k2: nat| 1 <= k2 < span(a, c) implies m.free(#[trigger] step_n(a, p.direction, k2)) by {}
    assert forall|l2: nat| 1 <= l2 < span(b, c) implies m.free(#[trigger] step_n(b, q.direction, l2)) by {}
}

/// Two cells of the same tile with exactly one open corner between them
/// connect through that corner: `connect` returns the three cells, and the
/// corner lies on a free run of each cell.
pub proof fn law_single_turn_cells(m: Mapping, a: Cell, b: Cell, c: Cell)
    requires
        m.wf(),
        m.valid(a),
        m.valid(b),
        !m.border(a),
        !m.border(b),
        m.at(a) == m.at(b),
        m.at(b) != NO_SPRITE,
        open_corner(m, a, b, c),
        forall|c2: Cell| #[trigger] open_corner(m, a, b, c2) ==> c2 == c,
    ensures
        connection(m, a, b) == Some(seq![a, c, b]),
        exists|i: int, j: int|
            0 <= i < 4 && 0 <= j < 4 && on_path(#[trigger] rays(m, a)[i], c) && on_path(#[trigger] rays(m, b)[j], c),
{
    m.lemma_valid_index(a);
    m.lemma_valid_index(b);
    assert(m.valid(c));
    let da = direction_between(a, c)->Some_0;
    let db = direction_between(b, c)->Some_0;
    lemma_corner_on_ray(m, a, c);
    lemma_corner_on_ray(m, b, c);
    let i = ray_index(da);
    let j = ray_index(db);
    let ps = rays(m, a);
    let qs = rays(m, b);
    assert(ps[i].direction == da && ps[i].origin == a);
    assert(qs[j].direction == db && qs[j].origin == b);
    assert(crossed_of(ps[i], qs[j]) == Some(c));
    assert forall|i2: int, j2: int| 0 <= i2 < 4 && 0 <= j2 < 4 && (#[trigger] crossed_of(rays(m, a)[i2], rays(m, b)[j2])) is Some
        implies crossed_of(rays(m, a)[i2], rays(m, b)[j2]) == Some(c) by {
        lemma_crossed_is_open(m, a, b, i2, j2);
    }
    law_single_turn(m, a, b, c);
}

} // verus!
