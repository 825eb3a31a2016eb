use vstd::prelude::*;

use crate::cell::Cell;
use crate::mapping::{Mapping, SpriteId, NO_SPRITE};
use crate::tracing::{connection, rays, Path};

verus! {

/// A pair of tiles removed from the board, kept for drawing while it fades.
pub struct Couple {
    /// Still need to render removed cells on destroy
    pub remnants: [(Cell, SpriteId); 2],
    /// Nodes for connection
    pub nodes: Vec<Cell>,
    /// Time added, in milliseconds
    pub epoch: u64,
}

/// A ring buffer of fixed capacity: pushing a new item drops the oldest.
pub struct RingBuf<T> {
    pub idx: usize,
    pub buf: Vec<Option<T>>,
}

impl<T> RingBuf<T> {
    pub open spec fn wf(&self) -> bool {
        0 < self.buf@.len() && self.idx < self.buf@.len()
    }

    /// The slot written last: the one before the next, going round.
    pub open spec fn last_slot(&self) -> int {
        if self.idx == 0 {
            self.buf@.len() - 1
        } else {
            self.idx - 1
        }
    }

    /// The slot after the next one to write, going round.
    pub open spec fn next_slot(&self) -> int {
        if self.idx + 1 == self.buf@.len() {
            0
        } else {
            self.idx + 1
        }
    }

    pub fn new(capacity: usize) -> (r: Self)
        requires
            0 < capacity,
        ensures
            r.wf(),
            r.idx == 0,
            r.buf@.len() == capacity,
            forall|i: int| 0 <= i < capacity ==> r.buf@[i] is None,
    {
        let mut buf: Vec<Option<T>> = Vec::new();
        let mut i: usize = 0;
        while i < capacity
            invariant
                i <= capacity,
                buf@.len() == i,
                forall|k: int| 0 <= k < i ==> buf@[k] is None,
            decreases capacity - i,
        {
            buf.push(None);
            i = i + 1;
        }
        RingBuf { idx: 0, buf }
    }

    /// Store `item` in the next slot, dropping what was there.
    pub fn push(&mut self, item: T)
        requires
            old(self).wf(),
        ensures
            final(self).wf(),
            final(self).buf@ == old(self).buf@.update(old(self).idx as int, Some(item)),
            final(self).idx == old(self).next_slot(),
    {
        let i = self.idx;
        let n = self.buf.len();
        self.buf.set(i, Some(item));
        self.idx = if i + 1 == n {
            0
        } else {
            self.idx + 1
        };
    }

    fn last_idx(&self) -> (r: usize)
        requires
            self.wf(),
        ensures
            r == self.last_slot(),
            r < self.buf@.len(),
    {
        if self.idx == 0 {
            self.buf.len() - 1
        } else {
            self.idx - 1
        }
    }

    /// Replace the item written last.
    pub fn alternate(&mut self, item: T)
        requires
            old(self).wf(),
        ensures
            final(self).wf(),
            final(self).idx == old(self).idx,
            final(self).buf@ == old(self).buf@.update(old(self).last_slot(), Some(item)),
    {
        let last_idx = self.last_idx();
        self.buf.set(last_idx, Some(item));
    }

    /// The item written last, if its slot holds one.
    pub fn latest(&self) -> (r: Option<&T>)
        requires
            self.wf(),
        ensures
            r == match self.buf@[self.last_slot()] {
                Some(x) => Some(&x),
                None => None,
            },
    {
        let last_idx = self.last_idx();
        self.buf[last_idx].as_ref()
    }

    /// Reset all values in buffer to None
    pub fn clear(&mut self)
        requires
            old(self).wf(),
        ensures
            final(self).wf(),
            final(self).idx == 0,
            final(self).buf@.len() == old(self).buf@.len(),
            forall|i: int| 0 <= i < final(self).buf@.len() ==> final(self).buf@[i] is None,
    {
        let mut i: usize = 0;
        while i < self.buf.len()
            invariant
                self.buf@.len() == old(self).buf@.len(),
                old(self).wf(),
                i <= self.buf@.len(),
                forall|k: int| 0 <= k < i ==> self.buf@[k] is None,
            decreases self.buf@.len() - i,
        {
            self.buf.set(i, None);
            i = i + 1;
        }
        self.idx = 0;
    }

    pub fn poll(&self) -> (r: &[Option<T>])
        ensures
            r@ == self.buf@,
    {
        self.buf.as_slice()
    }
}

/// The cells held by a selection buffer, in slot order.
pub open spec fn selected(buf: Seq<Option<Cell>>) -> Seq<Cell>
    decreases buf.len(),
{
    if buf.len() == 0 {
        Seq::empty()
    } else {
        let rest = selected(buf.drop_last());
        match buf.last() {
            Some(c) => rest.push(c),
            None => rest,
        }
    }
}

/// Keeps the player's selection and the couples being removed.
pub struct CellConnector {
    /// Buffer for selected pair
    pub select_buf: RingBuf<Cell>,
    /// Buffer for destroying pairs
    pub destroy_buf: RingBuf<Couple>,
}

impl Default for CellConnector {
    fn default() -> (r: Self)
        ensures
            r.wf(),
            r.cleared(),
            forall|i: int| 0 <= i < 3 ==> r.destroy_buf.buf@[i] is None,
    {
        CellConnector::new()
    }
}

impl CellConnector {
    pub open spec fn wf(&self) -> bool {
        &&& self.select_buf.wf()
        &&& self.select_buf.buf@.len() == 2
        &&& self.destroy_buf.wf()
        &&& self.destroy_buf.buf@.len() == 3
    }

    /// No cell is selected.
    pub open spec fn cleared(&self) -> bool {
        &&& self.select_buf.idx == 0
        &&& forall|i: int| 0 <= i < self.select_buf.buf@.len() ==> self.select_buf.buf@[i] is None
    }

    pub fn new() -> (r: Self)
        ensures
            r.wf(),
            r.cleared(),
            forall|i: int| 0 <= i < 3 ==> r.destroy_buf.buf@[i] is None,
    {
        CellConnector { select_buf: RingBuf::new(2), destroy_buf: RingBuf::new(3) }
    }

    /// Select a cell; selecting the cell selected last deselects everything.
    pub fn select(&mut self, cell: Cell)
        requires
            old(self).wf(),
        ensures
            final(self).wf(),
            final(self).destroy_buf == old(self).destroy_buf,
            old(self).select_buf.buf@[old(self).select_buf.last_slot()] == Some(cell) ==> final(self).cleared(),
            old(self).select_buf.buf@[old(self).select_buf.last_slot()] != Some(cell) ==> {
                &&& final(self).select_buf.buf@ == old(self).select_buf.buf@.update(old(self).select_buf.idx as int, Some(cell))
                &&& final(self).select_buf.idx == old(self).select_buf.next_slot()
            },
    {
        if let Some(prev) = self.select_buf.latest() {
            // Deselect case
            if *prev == cell {
                self.select_buf.clear();
                return;
            }
        }
        self.select_buf.push(cell);
    }

    /// Replace the cell selected last.
    pub fn alter_selection(&mut self, cell: Cell)
        requires
            old(self).wf(),
        ensures
            final(self).wf(),
            final(self).destroy_buf == old(self).destroy_buf,
            final(self).select_buf.idx == old(self).select_buf.idx,
            final(self).select_buf.buf@ == old(self).select_buf.buf@.update(old(self).select_buf.last_slot(), Some(cell)),
    {
        self.select_buf.alternate(cell);
    }

    /// The cell selected last.
    pub fn get_selection(&self) -> (r: Option<&Cell>)
        requires
            self.wf(),
        ensures
            r == match self.select_buf.buf@[self.select_buf.last_slot()] {
                Some(x) => Some(&x),
                None => None,
            },
    {
        self.select_buf.latest()
    }

    /// The couples being removed, newest slots overwritten first.
    pub fn poll_destroying(&self) -> (r: &[Option<Couple>])
        ensures
            r@ == self.destroy_buf.buf@,
    {
        self.destroy_buf.poll()
    }

    /// The cells held by the selection buffer, in slot order.
    fn selection(&self) -> (r: Vec<Cell>)
        requires
            self.wf(),
        ensures
            r@ == selected(self.select_buf.buf@),
    {
        let mut r: Vec<Cell> = Vec::new();
        let mut i: usize = 0;
        while i < self.select_buf.buf.len()
            invariant
                self.wf(),
                i <= 2,
                r@ == selected(self.select_buf.buf@.subrange(0, i as int)),
            decreases 2 - i,
        {
            let ghost prefix = self.select_buf.buf@.subrange(0, i as int + 1);
            assert(prefix.drop_last() =~= self.select_buf.buf@.subrange(0, i as int));
            if let Some(c) = self.select_buf.buf[i] {
                r.push(c);
            }
            i = i + 1;
        }
        assert(self.select_buf.buf@.subrange(0, 2) =~= self.select_buf.buf@);
        r
    }

    /// When two cells are selected, try to connect them on `mapping`. A
    /// selection off the board, on its border, or of two different sprites is
    /// dropped. When the cells connect, both are cleared and a couple with the
    /// connecting line, stamped with `instant`, is queued for removal; when
    /// they do not, the rays cast from both are returned. Either way the
    /// selection is cleared.
    pub fn update(&mut self, mapping: &mut Mapping, instant: u64) -> (r: Result<(), Vec<Path>>)
        requires
            old(self).wf(),
            old(mapping).wf(),
        ensures
            final(self).wf(),
            final(mapping).wf(),
            final(mapping).columns == old(mapping).columns,
            final(mapping).rows == old(mapping).rows,
            ({
                let sel = selected(old(self).select_buf.buf@);
                let m = *old(mapping);
                if sel.len() < 2 {
                    &&& r is Ok
                    &&& *final(mapping) == *old(mapping)
                    &&& final(self).select_buf == old(self).select_buf
                    &&& final(self).destroy_buf == old(self).destroy_buf
                } else {
                    let a = sel[0];
                    let b = sel[1];
                    &&& final(self).cleared()
                    &&& if !(m.valid(a) && m.valid(b) && !m.border(a) && !m.border(b)) || m.at(a) != m.at(b) {
                        &&& r is Ok
                        &&& final(mapping)@ == m@
                        &&& final(self).destroy_buf == old(self).destroy_buf
                    } else {
                        match connection(m, a, b) {
                            Some(path) => {
                                let couple = final(self).destroy_buf.buf@[old(self).destroy_buf.idx as int]->Some_0;
                                &&& r is Ok
                                &&& final(mapping)@ == m@.update(m.index(a), NO_SPRITE).update(m.index(b), NO_SPRITE)
                                &&& final(self).destroy_buf.buf@[old(self).destroy_buf.idx as int] is Some
                                &&& couple.remnants@ == seq![(a, m.at(a)), (b, m.at(b))]
                                &&& couple.nodes@ == path
                                &&& couple.epoch == instant
                                &&& final(self).destroy_buf.idx == old(self).destroy_buf.next_slot()
                                &&& forall|i: int| 0 <= i < 3 && i != old(self).destroy_buf.idx ==> final(self).destroy_buf.buf@[i] == old(self).destroy_buf.buf@[i]
                            },
                            None => {
                                &&& r is Err
                                &&& r->Err_0@ == rays(m, a) + rays(m, b)
                                &&& final(mapping)@ == m@
                                &&& final(self).destroy_buf == old(self).destroy_buf
                            },
                        }
                    }
                }
            }),
    {
        let selection = self.selection();
        if selection.len() < 2 {
            return Ok(());
        }
        let first = selection[0];
        let second = selection[1];
        let placed = mapping.check_valid_cell(&first) && mapping.check_valid_cell(&second);
        // Clear selection if off the inner board or not the same sprite
        if !placed {
            self.select_buf.clear();
            return Ok(());
        }
        let first_sprite = mapping.get_sprite(&first);
        let second_sprite = mapping.get_sprite(&second);
        if mapping.check_if_border(&first) || mapping.check_if_border(&second) || first_sprite != second_sprite {
            self.select_buf.clear();
            return Ok(());
        }
        // Connecting
        let result = match mapping.connect(&first, &second) {
            Ok(nodes) => {
                let couple = Couple {
                    remnants: [(first, first_sprite), (second, second_sprite)],
                    nodes,
                    epoch: instant,
                };
                // Remove couple from mapping
                mapping.clear_cell(&first);
                mapping.clear_cell(&second);
                // Add couple to destroy buffer
                self.destroy_buf.push(couple);
                Ok(())
            },
            Err((_, conquered)) => Err(conquered),
        };
        // clear selection after match
        self.select_buf.clear();
        result
    }
}

} // verus!
