use vstd::prelude::*;
use vstd::set_lib::{lemma_int_range, lemma_len_subset, lemma_map_size, set_int_range};

use rand::rngs::ThreadRng;
use rand::seq::SliceRandom;

use crate::block::{block_neighbours, block_small, reverses, Block, Direction};
use crate::mapping::lemma_index_in_bounds;
use crate::matcher::{couples, pairs_down, rule_holds, run_start, MatchRule, Matcher};
use crate::shadow::{
    blend_memes, is_blend, meme_intersection, scan_back, scan_fwd, Meme, ShadowBlend, NO_MEME,
};
use crate::track::{
    all_children_added, child_allowed, goal_child, grown, lineage, tree_wf, turns_after, wild_left,
    ExploreFlag, Track, TrackView,
};

verus! {

/// A game map of memes stored row by row, whose outermost ring of blocks is
/// a border that is never filled.
pub struct GameMap {
    pub columns: usize,
    pub rows: usize,
    pub data: Vec<Meme>,
}

/// The blends `ws` are those cast onto position `wall` of each of `tracks`,
/// looking along the whole track.
pub open spec fn blends_on(tracks: Seq<Seq<Meme>>, wall: int, ws: Seq<ShadowBlend>) -> bool {
    &&& ws.len() == tracks.len()
    &&& forall|i: int| 0 <= i < ws.len() ==> is_blend(#[trigger] ws[i], tracks[i], wall, (None, None))
}

/// Some two positions of an unblocked stretch of the wall see a meme in
/// common.
pub open spec fn wall_has_couple(tracks: Seq<Seq<Meme>>, wall: int) -> bool {
    exists|ws: Seq<ShadowBlend>| blends_on(tracks, wall, ws) && couples(ws, MatchRule::Same, ws.len() as int).len() > 0
}

/// Two sequences of blends that agree on what decides a match.
pub open spec fn blends_agree(a: Seq<ShadowBlend>, b: Seq<ShadowBlend>) -> bool {
    &&& a.len() == b.len()
    &&& forall|i: int| 0 <= i < a.len() ==> (#[trigger] a[i]).blocked == b[i].blocked && blend_memes(a[i]) == blend_memes(b[i])
}

proof fn lemma_run_start_agree(a: Seq<ShadowBlend>, b: Seq<ShadowBlend>, n: int)
    requires
        blends_agree(a, b),
        n <= a.len(),
    ensures
        run_start(a, n) == run_start(b, n),
    decreases n,
{
    if n > 0 {
        lemma_run_start_agree(a, b, n - 1);
    }
}

proof fn lemma_pairs_agree(a: Seq<ShadowBlend>, b: Seq<ShadowBlend>, lo: int, hi: int, n: int)
    requires
        blends_agree(a, b),
        hi < a.len(),
        0 <= n < a.len(),
    ensures
        pairs_down(a, MatchRule::Same, lo, hi, n) == pairs_down(b, MatchRule::Same, lo, hi, n),
    decreases hi - lo + 1,
{
    if !(hi < lo || hi < 0) {
        lemma_pairs_agree(a, b, lo, hi - 1, n);
        assert(rule_holds(MatchRule::Same, a[hi], a[n]) == rule_holds(MatchRule::Same, b[hi], b[n]));
    }
}

proof fn lemma_couples_agree(a: Seq<ShadowBlend>, b: Seq<ShadowBlend>, n: int)
    requires
        blends_agree(a, b),
        n <= a.len(),
    ensures
        couples(a, MatchRule::Same, n) == couples(b, MatchRule::Same, n),
    decreases n,
{
    if n > 0 {
        lemma_couples_agree(a, b, n - 1);
        lemma_run_start_agree(a, b, n - 1);
        lemma_pairs_agree(a, b, run_start(a, n - 1), n - 2, n - 1);
    }
}

/// The blends cast onto one wall are unique up to what decides a match.
proof fn lemma_blends_unique(tracks: Seq<Seq<Meme>>, wall: int, a: Seq<ShadowBlend>, b: Seq<ShadowBlend>)
    requires
        blends_on(tracks, wall, a),
        blends_on(tracks, wall, b),
        forall|i: int| 0 <= i < tracks.len() ==> 0 <= wall < (#[trigger] tracks[i]).len(),
    ensures
        couples(a, MatchRule::Same, a.len() as int) == couples(b, MatchRule::Same, b.len() as int),
{
    assert forall|i: int| 0 <= i < a.len() implies (#[trigger] a[i]).blocked == b[i].blocked && blend_memes(a[i]) == blend_memes(b[i]) by {
        assert(is_blend(a[i], tracks[i], wall, (None, None)));
        assert(is_blend(b[i], tracks[i], wall, (None, None)));
        assert(0 <= wall < tracks[i].len());
    }
    lemma_couples_agree(a, b, a.len() as int);
}

#[verifier::external_type_specification]
#[verifier::external_body]
pub struct ExThreadRng(ThreadRng);

/// Relies on rand's `SliceRandom::shuffle` for slices, which only swaps
/// items: the blocks come back in some order, each as often as before.
#[verifier::external_body]
fn shuffle_blocks(regions: &mut Vec<Block>, rng: &mut ThreadRng)
    ensures
        final(regions)@.to_multiset() == old(regions)@.to_multiset(),
{
    regions.shuffle(rng)
}

/// Relies on std's `format!` with the derived `Debug` of `Block`: a message
/// naming the block where a meme could not be set, and why.
#[verifier::external_body]
fn unset_message(blk: &Block, err: &str) -> String {
    format!("Cannot set meme at {:?}: {}", blk, err)
}

/// The block of the `t`-th fill of a plan: blocks are taken from the back.
pub open spec fn planned_block(regions: Seq<Block>, t: int) -> Block {
    regions[regions.len() - 1 - t]
}

/// How many blocks a plan fills: two for each meme, while two blocks remain.
pub open spec fn planned_sets(regions: Seq<Block>, memes: Seq<Meme>) -> int {
    let pairs = if memes.len() <= regions.len() / 2 {
        memes.len() as int
    } else {
        (regions.len() / 2) as int
    };
    2 * pairs
}

/// The inner blocks of column `x`, top to bottom.
pub open spec fn column_blocks(x: int, rows: int) -> Seq<Block> {
    Seq::new((rows - 2) as nat, |j: int| Block { column: x as usize, row: (j + 1) as usize })
}

/// The inner blocks of the columns `1 .. x`, column by column.
pub open spec fn inner_blocks(x: int, rows: int) -> Seq<Block>
    decreases x,
{
    if x <= 1 {
        Seq::empty()
    } else {
        inner_blocks(x - 1, rows) + column_blocks(x - 1, rows)
    }
}

/// The blocks of `s` that are open on the map.
pub open spec fn open_blocks(g: GameMap, s: Seq<Block>) -> Seq<Block>
    decreases s.len(),
{
    if s.len() == 0 {
        Seq::empty()
    } else if g.open_block(s.last()) {
        open_blocks(g, s.drop_last()).push(s.last())
    } else {
        open_blocks(g, s.drop_last())
    }
}

/// Relies on std's `format!` with the derived `Debug` of `Block`: a message
/// naming the block and what is wrong with it.
#[verifier::external_body]
fn block_message(blk: &Block, what: &str) -> String {
    format!("{:?} is at {}", blk, what)
}

/// Relies on std's `format!` with the derived `Debug` of `Block`: a message
/// naming the block and the meme that occupies it.
#[verifier::external_body]
fn occupied_message(blk: &Block, meme: Meme) -> String {
    format!("{:?} occupied with {}", blk, meme)
}

impl GameMap {
    pub open spec fn wf(&self) -> bool {
        &&& 2 <= self.columns <= 255
        &&& 2 <= self.rows <= 255
        &&& self.data@.len() == self.columns * self.rows
    }

    pub open spec fn valid(&self, blk: Block) -> bool {
        blk.column < self.columns && blk.row < self.rows
    }

    pub open spec fn index(&self, blk: Block) -> int {
        blk.row * self.columns + blk.column
    }

    pub open spec fn at(&self, blk: Block) -> Meme {
        self.data@[self.index(blk)]
    }

    pub open spec fn border(&self, blk: Block) -> bool {
        blk.column == 0 || blk.column == self.columns - 1 || blk.row == 0 || blk.row == self.rows - 1
    }

    /// An inner block that holds no meme.
    pub open spec fn open_block(&self, blk: Block) -> bool {
        self.valid(blk) && !self.border(blk) && self.at(blk) == NO_MEME
    }

    /// Row `y` of the map, left to right.
    pub open spec fn row_seq(&self, y: int) -> Seq<Meme> {
        Seq::new(self.columns as nat, |x: int| self.data@[y * self.columns + x])
    }

    /// Column `x` of the map, top to bottom.
    pub open spec fn col_seq(&self, x: int) -> Seq<Meme> {
        Seq::new(self.rows as nat, |y: int| self.data@[y * self.columns + x])
    }

    pub open spec fn row_tracks(&self) -> Seq<Seq<Meme>> {
        Seq::new(self.rows as nat, |y: int| self.row_seq(y))
    }

    pub open spec fn col_tracks(&self) -> Seq<Seq<Meme>> {
        Seq::new(self.columns as nat, |x: int| self.col_seq(x))
    }

    proof fn lemma_index(&self, x: int, y: int)
        requires
            self.wf(),
            0 <= x < self.columns,
            0 <= y < self.rows,
        ensures
            0 <= y * self.columns + x < self.data@.len(),
            y * self.columns + x <= 255 * 255,
    {
        lemma_index_in_bounds(x, y, self.columns as int, self.rows as int);
        assert(self.columns * self.rows <= 255 * 255) by (nonlinear_arith)
            requires
                self.columns <= 255,
                self.rows <= 255,
        ;
    }

    /// A map of `columns` by `rows` blocks, border included, all empty; `None`
    /// unless both sides are at least two and the inner area is even.
    pub fn new(columns: u8, rows: u8) -> (r: Option<Self>)
        ensures
            r is Some <==> columns >= 2 && rows >= 2 && ((columns - 2) * (rows - 2)) % 2 == 0,
            r is Some ==> {
                let m = r->Some_0;
                &&& m.wf()
                &&& m.columns == columns
                &&& m.rows == rows
                &&& forall|i: int| 0 <= i < m.data@.len() ==> m.data@[i] == NO_MEME
            },
    {
        if columns < 2 || rows < 2 {
            return None;
        }
        let inner_columns = columns as usize - 2;
        let inner_rows = rows as usize - 2;
        assert(inner_columns * inner_rows <= 253 * 253) by (nonlinear_arith)
            requires
                inner_columns <= 253,
                inner_rows <= 253,
        ;
        if (inner_columns * inner_rows) % 2 != 0 {
            return None;
        }
        assert(columns as usize * rows as usize <= 255 * 255) by (nonlinear_arith)
            requires
                columns <= 255,
                rows <= 255,
        ;
        Some(GameMap {
            columns: columns as usize,
            rows: rows as usize,
            data: vec![NO_MEME; columns as usize * rows as usize],
        })
    }

    pub fn cell(&self, blk: &Block) -> (r: Meme)
        requires
            self.wf(),
            self.valid(*blk),
        ensures
            r == self.at(*blk),
    {
        proof {
            self.lemma_index(blk.column as int, blk.row as int);
        }
        self.data[blk.row * self.columns + blk.column]
    }

    fn col(&self, index: usize) -> (r: Vec<Meme>)
        requires
            self.wf(),
            index < self.columns,
        ensures
            r@ == self.col_seq(index as int),
    {
        let mut r: Vec<Meme> = Vec::new();
        let mut y: usize = 0;
        while y < self.rows
            invariant
                self.wf(),
                index < self.columns,
                y <= self.rows,
                r@ =~= self.col_seq(index as int).subrange(0, y as int),
            decreases self.rows - y,
        {
            proof {
                self.lemma_index(index as int, y as int);
            }
            r.push(self.data[y * self.columns + index]);
            y = y + 1;
        }
        r
    }

    fn row(&self, index: usize) -> (r: Vec<Meme>)
        requires
            self.wf(),
            index < self.rows,
        ensures
            r@ == self.row_seq(index as int),
    {
        let mut r: Vec<Meme> = Vec::new();
        let mut x: usize = 0;
        while x < self.columns
            invariant
                self.wf(),
                index < self.rows,
                x <= self.columns,
                r@ =~= self.row_seq(index as int).subrange(0, x as int),
            decreases self.columns - x,
        {
            proof {
                self.lemma_index(x as int, index as int);
            }
            r.push(self.data[index * self.columns + x]);
            x = x + 1;
        }
        r
    }

    fn rows(&self) -> (r: Vec<Vec<Meme>>)
        requires
            self.wf(),
        ensures
            r@.len() == self.rows,
            forall|y: int| 0 <= y < self.rows ==> (#[trigger] r@[y])@ == self.row_seq(y),
    {
        let mut r: Vec<Vec<Meme>> = Vec::new();
        let mut y: usize = 0;
        while y < self.rows
            invariant
                self.wf(),
                y <= self.rows,
                r@.len() == y,
                forall|k: int| 0 <= k < y ==> (#[trigger] r@[k])@ == self.row_seq(k),
            decreases self.rows - y,
        {
            r.push(self.row(y));
            y = y + 1;
        }
        r
    }

    fn cols(&self) -> (r: Vec<Vec<Meme>>)
        requires
            self.wf(),
        ensures
            r@.len() == self.columns,
            forall|x: int| 0 <= x < self.columns ==> (#[trigger] r@[x])@ == self.col_seq(x),
    {
        let mut r: Vec<Vec<Meme>> = Vec::new();
        let mut x: usize = 0;
        while x < self.columns
            invariant
                self.wf(),
                x <= self.columns,
                r@.len() == x,
                forall|k: int| 0 <= k < x ==> (#[trigger] r@[k])@ == self.col_seq(k),
            decreases self.columns - x,
        {
            r.push(self.col(x));
            x = x + 1;
        }
        r
    }

    fn block2idx(&self, blk: &Block) -> (r: usize)
        requires
            self.wf(),
            self.valid(*blk),
        ensures
            r == self.index(*blk),
            r < self.data@.len(),
    {
        proof {
            self.lemma_index(blk.column as int, blk.row as int);
        }
        blk.row * self.columns + blk.column
    }

    fn is_border_block(&self, blk: &Block) -> (r: bool)
        requires
            self.wf(),
        ensures
            r == self.border(*blk),
    {
        blk.column == 0 || blk.column == self.columns - 1 || blk.row == 0 || blk.row == self.rows - 1
    }

    fn check_border_block(&self, blk: &Block) -> (r: Result<(), String>)
        requires
            self.wf(),
        ensures
            r is Ok <==> !self.border(*blk),
    {
        if self.is_border_block(blk) {
            Err("border".to_string())
        } else {
            Ok(())
        }
    }

    /// `Ok` when a meme may be put on the block: it is inside the border and
    /// empty.
    pub fn check_valid_empty_block(&self, blk: &Block) -> (r: Result<(), String>)
        requires
            self.wf(),
            self.valid(*blk),
        ensures
            r is Ok <==> self.open_block(*blk),
    {
        if let Err(err) = self.check_border_block(blk) {
            return Err(block_message(blk, err.as_str()));
        }
        let meme = self.data[self.block2idx(blk)];
        if meme == NO_MEME {
            Ok(())
        } else {
            Err(occupied_message(blk, meme))
        }
    }

    pub fn set_meme(&mut self, meme: Meme, blk: &Block) -> (r: Result<(), String>)
        requires
            old(self).wf(),
            old(self).valid(*blk),
        ensures
            final(self).wf(),
            final(self).columns == old(self).columns,
            final(self).rows == old(self).rows,
            r is Ok <==> old(self).open_block(*blk),
            r is Ok ==> final(self).data@ == old(self).data@.update(old(self).index(*blk), meme),
            r is Err ==> final(self).data@ == old(self).data@,
    {
        self.check_valid_empty_block(blk)?;
        let idx = self.block2idx(blk);
        self.data.set(idx, meme);
        Ok(())
    }

    pub fn cast_horizontal_shadows(&self, wall_idx: usize, cast_ranges: (Option<usize>, Option<usize>)) -> (r: Vec<ShadowBlend>)
        requires
            self.wf(),
            crate::shadow::ranges_ok(self.rows as int, wall_idx as int, cast_ranges),
        ensures
            r@.len() == self.columns,
            forall|x: int| 0 <= x < self.columns ==> is_blend(#[trigger] r@[x], self.col_seq(x), wall_idx as int, cast_ranges),
    {
        let tracks = self.cols();
        ShadowBlend::pack_from(tracks, wall_idx, cast_ranges)
    }

    pub fn cast_vertical_shadows(&self, wall_idx: usize, cast_ranges: (Option<usize>, Option<usize>)) -> (r: Vec<ShadowBlend>)
        requires
            self.wf(),
            crate::shadow::ranges_ok(self.columns as int, wall_idx as int, cast_ranges),
        ensures
            r@.len() == self.rows,
            forall|y: int| 0 <= y < self.rows ==> is_blend(#[trigger] r@[y], self.row_seq(y), wall_idx as int, cast_ranges),
    {
        let tracks = self.rows();
        ShadowBlend::pack_from(tracks, wall_idx, cast_ranges)
    }

    /// Whether a straight shadow scan finds a match anywhere: along a wall on
    /// an inner column (looking along each row) or on an inner row (looking
    /// along each column).
    pub fn still_has_move(&self) -> (r: bool)
        requires
            self.wf(),
        ensures
            r == ((exists|c: int| 1 <= c < self.columns - 1 && wall_has_couple(self.row_tracks(), c))
                || (exists|w: int| 1 <= w < self.rows - 1 && wall_has_couple(self.col_tracks(), w))),
    {
        let mut col: usize = 1;
        while col < self.columns - 1
            invariant
                self.wf(),
                1 <= col <= self.columns - 1,
                forall|c: int| 1 <= c < col ==> !wall_has_couple(self.row_tracks(), c),
            decreases self.columns - col,
        {
            let shadows = self.cast_vertical_shadows(col, (None, None));
            let found = Matcher::match_same(shadows.as_slice());
            proof {
                assert(blends_on(self.row_tracks(), col as int, shadows@));
                assert forall|ws: Seq<ShadowBlend>| blends_on(self.row_tracks(), col as int, ws) implies couples(ws, MatchRule::Same, ws.len() as int) == couples(shadows@, MatchRule::Same, shadows@.len() as int) by {
                    lemma_blends_unique(self.row_tracks(), col as int, ws, shadows@);
                }
            }
            if found.len() > 0 {
                assert(wall_has_couple(self.row_tracks(), col as int));
                return true;
            }
            col = col + 1;
        }
        let mut row: usize = 1;
        while row < self.rows - 1
            invariant
                self.wf(),
                1 <= row <= self.rows - 1,
                forall|c: int| 1 <= c < self.columns - 1 ==> !wall_has_couple(self.row_tracks(), c),
                forall|w: int| 1 <= w < row ==> !wall_has_couple(self.col_tracks(), w),
            decreases self.rows - row,
        {
            let shadows = self.cast_horizontal_shadows(row, (None, None));
            let found = Matcher::match_same(shadows.as_slice());
            proof {
                assert(blends_on(self.col_tracks(), row as int, shadows@));
                assert forall|ws: Seq<ShadowBlend>| blends_on(self.col_tracks(), row as int, ws) implies couples(ws, MatchRule::Same, ws.len() as int) == couples(shadows@, MatchRule::Same, shadows@.len() as int) by {
                    lemma_blends_unique(self.col_tracks(), row as int, ws, shadows@);
                }
            }
            if found.len() > 0 {
                assert(wall_has_couple(self.col_tracks(), row as int));
                return true;
            }
            row = row + 1;
        }
        false
    }

    /// The map after the first `t` fills of the plan, each `t`-th fill
    /// putting meme `memes[t / 2]` on `planned_block(regions, t)`.
    pub open spec fn filled(&self, regions: Seq<Block>, memes: Seq<Meme>, t: int) -> Seq<Meme>
        decreases t,
    {
        if t <= 0 {
            self.data@
        } else {
            self.filled(regions, memes, t - 1).update(
                self.index(planned_block(regions, t - 1)),
                memes[(t - 1) / 2],
            )
        }
    }

    /// The `t`-th fill of the plan lands on an empty inner block.
    pub open spec fn fill_fits(&self, regions: Seq<Block>, memes: Seq<Meme>, t: int) -> bool {
        let b = planned_block(regions, t);
        !self.border(b) && self.filled(regions, memes, t)[self.index(b)] == NO_MEME
    }

    /// What filling the map `before` by the plan `plan` leaves: the map
    /// `after`, the blocks `left` and the result `r`.
    pub open spec fn fill_outcome(&self, plan: Seq<Block>, memes: Seq<Meme>, after: Seq<Meme>, left: Seq<Block>, ok: bool) -> bool {
        let total = planned_sets(plan, memes);
        &&& ok <==> forall|t: int| 0 <= t < total ==> self.fill_fits(plan, memes, t)
        &&& ok ==> after == self.filled(plan, memes, total) && left == plan.subrange(0, plan.len() - total)
        &&& !ok ==> exists|t: int|
            0 <= t < total && !self.fill_fits(plan, memes, t) && (forall|u: int|
                0 <= u < t ==> self.fill_fits(plan, memes, u)) && after == self.filled(plan, memes, t)
                && left == plan.subrange(0, plan.len() - 1 - t)
    }

    /// The inner blocks, column by column, each top to bottom.
    pub fn playground_blocks(&self) -> (r: Vec<Block>)
        requires
            self.wf(),
        ensures
            r@ == inner_blocks(self.columns - 1, self.rows as int),
    {
        let mut r: Vec<Block> = Vec::new();
        let mut x: usize = 1;
        while x < self.columns - 1
            invariant
                self.wf(),
                1 <= x <= self.columns - 1,
                r@ == inner_blocks(x as int, self.rows as int),
            decreases self.columns - x,
        {
            let ghost before = r@;
            let mut y: usize = 1;
            while y < self.rows - 1
                invariant
                    self.wf(),
                    1 <= x < self.columns - 1,
                    1 <= y <= self.rows - 1,
                    r@ =~= before + column_blocks(x as int, self.rows as int).subrange(0, y - 1),
                decreases self.rows - y,
            {
                r.push(Block { column: x, row: y });
                y = y + 1;
            }
            assert(column_blocks(x as int, self.rows as int).subrange(0, self.rows - 2) =~= column_blocks(
                x as int,
                self.rows as int,
            ));
            x = x + 1;
        }
        r
    }

    /// The blocks of `from` that are open, in order.
    pub fn collect_empty_blocks(&self, from: &[Block]) -> (r: Vec<Block>)
        requires
            self.wf(),
            forall|i: int| 0 <= i < from@.len() ==> self.valid(#[trigger] from@[i]),
        ensures
            r@ == open_blocks(*self, from@),
    {
        let mut r: Vec<Block> = Vec::new();
        let mut i: usize = 0;
        while i < from.len()
            invariant
                self.wf(),
                forall|i: int| 0 <= i < from@.len() ==> self.valid(#[trigger] from@[i]),
                i <= from@.len(),
                r@ == open_blocks(*self, from@.subrange(0, i as int)),
            decreases from@.len() - i,
        {
            let blk = from[i];
            assert(from@.subrange(0, i + 1).drop_last() =~= from@.subrange(0, i as int));
            if self.check_valid_empty_block(&blk).is_ok() {
                r.push(blk);
            }
            i = i + 1;
        }
        assert(from@.subrange(0, from@.len() as int) =~= from@);
        r
    }

    /// Put the memes in pairs on the blocks of `regions`, taken from its back:
    /// two blocks for each meme, while two blocks remain. Stops at the first
    /// block that is on the border or occupied, and reports it.
    pub fn fill_meme_pairs(&mut self, meme_lst: &[Meme], regions: &mut Vec<Block>) -> (r: Result<(), String>)
        requires
            old(self).wf(),
            forall|i: int| 0 <= i < old(regions)@.len() ==> old(self).valid(#[trigger] old(regions)@[i]),
        ensures
            final(self).wf(),
            final(self).columns == old(self).columns,
            final(self).rows == old(self).rows,
            old(self).fill_outcome(old(regions)@, meme_lst@, final(self).data@, final(regions)@, r is Ok),
    {
        let ghost g0 = *self;
        let ghost plan = regions@;
        let ghost total = planned_sets(plan, meme_lst@);
        let n = regions.len();
        let mut s: usize = 0;
        let mut t: usize = 0;
        while s < meme_lst.len() && regions.len() >= 2
            invariant
                self.wf(),
                self.columns == g0.columns,
                self.rows == g0.rows,
                g0 == *old(self),
                g0.wf(),
                plan == old(regions)@,
                total == planned_sets(plan, meme_lst@),
                n == plan.len(),
                forall|i: int| 0 <= i < plan.len() ==> g0.valid(#[trigger] plan[i]),
                t == 2 * s,
                s <= meme_lst@.len(),
                t <= plan.len(),
                t <= total,
                regions@ == plan.subrange(0, plan.len() - t),
                self.data@ == g0.filled(plan, meme_lst@, t as int),
                forall|u: int| 0 <= u < t ==> g0.fill_fits(plan, meme_lst@, u),
            decreases meme_lst@.len() - s,
        {
            let meme = meme_lst[s];
            let mut k: usize = 0;
            while k < 2
                invariant
                    self.wf(),
                    self.columns == g0.columns,
                    self.rows == g0.rows,
                    g0 == *old(self),
                    g0.wf(),
                    plan == old(regions)@,
                    total == planned_sets(plan, meme_lst@),
                    n == plan.len(),
                    forall|i: int| 0 <= i < plan.len() ==> g0.valid(#[trigger] plan[i]),
                    s < meme_lst@.len(),
                    meme == meme_lst@[s as int],
                    k <= 2,
                    t == 2 * s + k,
                    2 * s + 2 <= plan.len(),
                    2 * s + 2 <= total,
                    regions@ == plan.subrange(0, plan.len() - t),
                    self.data@ == g0.filled(plan, meme_lst@, t as int),
                    forall|u: int| 0 <= u < t ==> g0.fill_fits(plan, meme_lst@, u),
                decreases 2 - k,
            {
                let blk = regions.pop().unwrap();
                assert(blk == planned_block(plan, t as int));
                match self.set_meme(meme, &blk) {
                    Ok(()) => {},
                    Err(err) => {
                        assert(!g0.fill_fits(plan, meme_lst@, t as int));
                        assert(regions@ =~= plan.subrange(0, plan.len() - 1 - t));
                        return Err(unset_message(&blk, err.as_str()));
                    },
                }
                assert(regions@ =~= plan.subrange(0, plan.len() - (t + 1)));
                t = t + 1;
                k = k + 1;
            }
            s = s + 1;
        }
        assert(t == total);
        Ok(())
    }

    /// Shuffle `regions`, then put the memes in pairs on its blocks as
    /// `fill_meme_pairs` does. Whatever order the shuffle gives, the outcome
    /// is that of filling by some ordering of the blocks.
    pub fn set_meme_regions(&mut self, meme_lst: &[Meme], regions: &mut Vec<Block>, rng: &mut ThreadRng) -> (r: Result<(), String>)
        requires
            old(self).wf(),
            forall|i: int| 0 <= i < old(regions)@.len() ==> old(self).valid(#[trigger] old(regions)@[i]),
        ensures
            final(self).wf(),
            final(self).columns == old(self).columns,
            final(self).rows == old(self).rows,
            exists|plan: Seq<Block>|
                plan.to_multiset() == old(regions)@.to_multiset() && #[trigger] old(self).fill_outcome(
                    plan,
                    meme_lst@,
                    final(self).data@,
                    final(regions)@,
                    r is Ok,
                ),
    {
        shuffle_blocks(regions, rng);
        let ghost plan = regions@;
        proof {
            plan.to_multiset_ensures();
            old(regions)@.to_multiset_ensures();
            assert forall|i: int| 0 <= i < plan.len() implies self.valid(#[trigger] plan[i]) by {
                assert(plan.contains(plan[i]));
                assert(plan.to_multiset().count(plan[i]) > 0);
                assert(old(regions)@.to_multiset().count(plan[i]) > 0);
                assert(old(regions)@.contains(plan[i]));
                let j = choose|j: int| 0 <= j < old(regions)@.len() && old(regions)@[j] == plan[i];
                assert(old(self).valid(old(regions)@[j]));
            }
        }
        let r = self.fill_meme_pairs(meme_lst, regions);
        assert(old(self).fill_outcome(plan, meme_lst@, self.data@, regions@, r is Ok));
        r
    }

    /// Search a line with at most two turns from `blk1` to `blk2` over empty
    /// inner blocks, by the greedy search of `Track`, stepping until the
    /// search is done. On success the line is the branch of a well-formed
    /// search tree from `blk1` down to `blk2`.
    pub fn connect(&self, blk1: &Block, blk2: &Block) -> (r: Result<Vec<Block>, String>)
        requires
            self.wf(),
            self.valid(*blk1),
            self.valid(*blk2),
            !self.border(*blk1),
            !self.border(*blk2),
            self.at(*blk1) != NO_MEME,
            self.at(*blk1) == self.at(*blk2),
        ensures
            r is Ok ==> exists|v: TrackView|
                {
                    &&& tree_wf(v)
                    &&& v.start == *blk1
                    &&& v.goal == *blk2
                    &&& v.nodes[v.current].flag == ExploreFlag::Goal
                    &&& r->Ok_0@ == lineage(v, v.current)
                    &&& forall|k: int|
                        0 <= k < v.nodes.len() ==> (#[trigger] v.nodes[k]).pos == *blk1 || v.nodes[k].pos
                            == *blk2 || self.open_block(v.nodes[k].pos)
                },
            r is Err ==> r->Err_0@ == "Not found"@,
            r is Err ==> exists|v: TrackView|
                {
                    &&& tree_wf(v)
                    &&& v.start == *blk1
                    &&& forall|k: int| 0 < k < v.nodes.len() ==> (#[trigger] v.nodes[k]).pos != *blk2
                    &&& forall|k: int| 0 <= k < v.nodes.len() ==> #[trigger] self.closed(v, k, *blk2)
                },
    {
        let validate = |blk: &Block| -> (ok: bool)
            requires
                self.wf(),
            ensures
                ok == self.open_block(*blk),
            { blk.column < self.columns && blk.row < self.rows && self.check_valid_empty_block(blk).is_ok() };
        let mut track = Track::new(*blk1, *blk2);
        let ghost area = self.columns * self.rows;
        proof {
            self.lemma_tree_fits(track@);
            lemma_settled_bound(track@);
        }
        let mut going = true;
        while going
            invariant
                self.wf(),
                self.valid(*blk1),
                self.valid(*blk2),
                area == self.columns * self.rows,
                tree_wf(track@),
                track@.start == *blk1,
                track@.goal == *blk2,
                going ==> track@.nodes[track@.current].flag == ExploreFlag::Wild,
                forall|b: Block| validate.requires((&b,)),
                forall|b: Block, ok: bool| validate.ensures((&b,), ok) ==> ok == self.open_block(b),
                forall|k: int|
                    0 <= k < track@.nodes.len() ==> (#[trigger] track@.nodes[k]).pos == *blk1
                        || track@.nodes[k].pos == *blk2 || self.open_block(track@.nodes[k].pos),
                settled(track@).finite(),
                settled(track@).len() <= track@.nodes.len() <= area,
                forall|k: int| 0 <= k < track@.nodes.len() ==> (#[trigger] track@.nodes[k]).flag != ExploreFlag::Goal,
                forall|k: int| 0 < k < track@.nodes.len() ==> (#[trigger] track@.nodes[k]).pos != *blk2,
                forall|k: int|
                    0 <= k < track@.nodes.len() && (#[trigger] track@.nodes[k]).flag == ExploreFlag::Explored
                        ==> self.closed(track@, k, *blk2),
                !going ==> !wild_left(track@),
            decreases area - settled(track@).len(),
        {
            let ghost before = track@;
            let more = track.search(&validate);
            proof {
                assert forall|k: int| 0 <= k < track@.nodes.len() implies (#[trigger] track@.nodes[k]).pos == *blk1
                    || track@.nodes[k].pos == *blk2 || self.open_block(track@.nodes[k].pos) by {
                    if k < before.nodes.len() {
                        if k != before.current {
                            assert(track@.nodes[k] == before.nodes[k]);
                        } else {
                            assert(track@.nodes[k].pos == before.nodes[k].pos);
                        }
                    }
                }
                self.lemma_tree_fits(track@);
                lemma_settled_bound(track@);
                lemma_settled_grows(before, track@);
            }
            if !more {
                if track.goal_found() {
                    return Ok(track.backtrace());
                }
                going = false;
                assert(!goal_child(before, track@));
            }
            proof {
                if !goal_child(before, track@) {
                    self.lemma_still_closed(before, track@, *blk2, validate);
                }
            }
            assert(more ==> !goal_child(before, track@));
        }
        proof {
            let v = track@;
            assert forall|k: int| 0 <= k < v.nodes.len() implies #[trigger] self.closed(v, k, *blk2) by {
                let f = track@.nodes[k].flag;
                if f == ExploreFlag::Wild {
                    assert(wild_left(v));
                }
                assert(f != ExploreFlag::Goal);
                assert(f == ExploreFlag::Explored);
            }
        }
        let not_found = "Not found".to_string();
        proof {
            vstd::string::to_string_from_display_ensures_for_str("Not found", not_found);
        }
        Err(not_found)
    }

    /// Every neighbour of node `k` that the search could have stepped on is
    /// in the tree: it goes back, turns a third time, is already in the tree,
    /// or is neither the goal nor an open block.
    pub open spec fn closed(&self, v: TrackView, k: int, goal: Block) -> bool {
        let e = v.nodes[k];
        forall|d: Direction, pos: Block|
            #[trigger] block_neighbours(e.pos).contains((d, pos)) ==> (e.direction is Some && reverses(
                e.direction->Some_0,
                d,
            )) || turns_after(e, d) > 2 || (exists|t: int| 0 <= t < v.nodes.len() && (#[trigger] v.nodes[t]).pos == pos)
                || (pos != goal && !self.open_block(pos))
    }

    /// A search step that finds no goal keeps every explored node closed and
    /// closes the node it explores.
    proof fn lemma_still_closed<F: Fn(&Block) -> bool>(&self, before: TrackView, after: TrackView, goal: Block, validate: F)
        requires
            tree_wf(before),
            before.goal == goal,
            before.nodes[before.current].flag == ExploreFlag::Wild,
            grown(before, (TrackView { current: before.current, ..after })),
            all_children_added(before, after, validate),
            !goal_child(before, after),
            forall|b: Block, ok: bool| validate.ensures((&b,), ok) ==> ok == self.open_block(b),
            forall|k: int| 0 <= k < before.nodes.len() ==> (#[trigger] before.nodes[k]).flag != ExploreFlag::Goal,
            forall|k: int| 0 < k < before.nodes.len() ==> (#[trigger] before.nodes[k]).pos != goal,
            forall|k: int|
                0 <= k < before.nodes.len() && (#[trigger] before.nodes[k]).flag == ExploreFlag::Explored
                    ==> self.closed(before, k, goal),
        ensures
            forall|k: int| 0 <= k < after.nodes.len() ==> (#[trigger] after.nodes[k]).flag != ExploreFlag::Goal,
            forall|k: int| 0 < k < after.nodes.len() ==> (#[trigger] after.nodes[k]).pos != goal,
            forall|k: int|
                0 <= k < after.nodes.len() && (#[trigger] after.nodes[k]).flag == ExploreFlag::Explored
                    ==> self.closed(after, k, goal),
    {
        let g = TrackView { current: before.current, ..after };
        assert(g.nodes == after.nodes);
        assert forall|k: int| 0 <= k < after.nodes.len() implies (#[trigger] after.nodes[k]).flag != ExploreFlag::Goal by {
            if k < before.nodes.len() && k != before.current {
                assert(after.nodes[k] == before.nodes[k]);
            }
        }
        assert forall|k: int| 0 < k < after.nodes.len() implies (#[trigger] after.nodes[k]).pos != goal by {
            if k < before.nodes.len() {
                if k != before.current {
                    assert(after.nodes[k] == before.nodes[k]);
                } else {
                    assert(after.nodes[k].pos == before.nodes[k].pos);
                }
            } else {
                assert(crate::track::child_ok(before, g.nodes[k]));
                assert(after.nodes[k].flag != ExploreFlag::Goal);
            }
        }
        assert forall|k: int|
            0 <= k < after.nodes.len() && (#[trigger] after.nodes[k]).flag == ExploreFlag::Explored implies self.closed(after, k, goal) by {
            if k >= before.nodes.len() {
                assert(crate::track::child_ok(before, g.nodes[k]));
            } else {
                let e = after.nodes[k];
                assert(e.pos == before.nodes[k].pos);
                assert(e.direction == before.nodes[k].direction);
                assert(e.turns == before.nodes[k].turns);
                assert forall|d: Direction, pos: Block| #[trigger] block_neighbours(e.pos).contains((d, pos)) implies (e.direction is Some && reverses(
                    e.direction->Some_0,
                    d,
                )) || turns_after(e, d) > 2 || (exists|t: int| 0 <= t < after.nodes.len() && (#[trigger] after.nodes[t]).pos == pos)
                    || (pos != goal && !self.open_block(pos)) by {
                    if k != before.current {
                        assert(self.closed(before, k, goal));
                        if exists|t: int| 0 <= t < before.nodes.len() && (#[trigger] before.nodes[t]).pos == pos {
                            let t = choose|t: int| 0 <= t < before.nodes.len() && (#[trigger] before.nodes[t]).pos == pos;
                            if t != before.current {
                                assert(after.nodes[t] == before.nodes[t]);
                            }
                            assert(after.nodes[t].pos == pos);
                        }
                    } else {
                        let nb = block_neighbours(e.pos);
                        let x = choose|x: int| 0 <= x < nb.len() && nb[x] == (d, pos);
                        assert(nb[x] == (d, pos));
                        if exists|t: int| 0 <= t < before.nodes.len() && (#[trigger] before.nodes[t]).pos == pos {
                            let t = choose|t: int| 0 <= t < before.nodes.len() && (#[trigger] before.nodes[t]).pos == pos;
                            if t != before.current {
                                assert(after.nodes[t] == before.nodes[t]);
                            }
                            assert(after.nodes[t].pos == pos);
                        } else if child_allowed(before, d, pos) && (pos == before.goal || self.open_block(pos)) {
                            assert(pos == before.goal || forall|ok: bool| validate.ensures((&pos,), ok) ==> ok);
                            let y = choose|y: int| before.nodes.len() <= y < after.nodes.len() && (#[trigger] after.nodes[y]).pos == nb[x].1;
                            assert(after.nodes[y].pos == pos);
                        }
                    }
                }
            }
        }
    }

    /// A well-formed search tree whose blocks all lie on the map has no more
    /// nodes than the map has blocks.
    proof fn lemma_tree_fits(&self, v: TrackView)
        requires
            self.wf(),
            tree_wf(v),
            self.valid(v.start),
            self.valid(v.goal),
            forall|k: int|
                0 <= k < v.nodes.len() ==> (#[trigger] v.nodes[k]).pos == v.start || v.nodes[k].pos == v.goal
                    || self.open_block(v.nodes[k].pos),
        ensures
            v.nodes.len() <= self.columns * self.rows,
    {
        assert forall|k: int| 0 <= k < v.nodes.len() implies self.valid(#[trigger] v.nodes[k].pos) by {}
        let n = v.nodes.len() as int;
        let area = self.columns * self.rows;
        let x = set_int_range(0, n);
        let f = |k: int| self.index(v.nodes[k].pos);
        lemma_int_range(0, n);
        lemma_int_range(0, area);
        assert forall|k1: int, k2: int| x.contains(k1) && x.contains(k2) && #[trigger] f(k1) == #[trigger] f(k2) implies k1 == k2 by {
            let p1 = v.nodes[k1].pos;
            let p2 = v.nodes[k2].pos;
            assert(self.valid(p1) && self.valid(p2));
            lemma_index_injective(p1.column as int, p1.row as int, p2.column as int, p2.row as int, self.columns as int);
            if k1 < k2 {
                assert(v.nodes[k1].pos != v.nodes[k2].pos);
            } else if k2 < k1 {
                assert(v.nodes[k2].pos != v.nodes[k1].pos);
            }
        }
        let y = x.map(f);
        lemma_map_size(x, y, f);
        assert forall|i: int| y.contains(i) implies set_int_range(0, area).contains(i) by {
            let k = choose|k: int| x.contains(k) && f(k) == i;
            self.lemma_index(v.nodes[k].pos.column as int, v.nodes[k].pos.row as int);
        }
        lemma_len_subset(y, set_int_range(0, area));
    }
}

/// Indexes of the nodes that are no longer unexplored.
pub open spec fn settled(v: TrackView) -> Set<int> {
    Set::new(|k: int| 0 <= k < v.nodes.len() && v.nodes[k].flag != ExploreFlag::Wild)
}

proof fn lemma_settled_bound(v: TrackView)
    ensures
        settled(v).finite(),
        settled(v).len() <= v.nodes.len(),
{
    lemma_int_range(0, v.nodes.len() as int);
    assert(settled(v).subset_of(set_int_range(0, v.nodes.len() as int)));
    lemma_len_subset(settled(v), set_int_range(0, v.nodes.len() as int));
}

/// A search step settles the node under the cursor, which was unexplored,
/// and unsettles none.
proof fn lemma_settled_grows(before: TrackView, after: TrackView)
    requires
        tree_wf(before),
        before.nodes[before.current].flag == ExploreFlag::Wild,
        after.nodes.len() >= before.nodes.len(),
        forall|k: int|
            0 <= k < before.nodes.len() && k != before.current ==> #[trigger] after.nodes[k] == before.nodes[k],
        after.nodes[before.current].flag == ExploreFlag::Explored,
    ensures
        settled(after).len() > settled(before).len(),
{
    lemma_settled_bound(before);
    lemma_settled_bound(after);
    let grown = settled(before).insert(before.current);
    assert(!settled(before).contains(before.current));
    assert(grown.subset_of(settled(after)));
    lemma_len_subset(grown, settled(after));
}

/// Distinct cells of a row-by-row layout have distinct indexes.
proof fn lemma_index_injective(c1: int, r1: int, c2: int, r2: int, width: int)
    requires
        0 <= c1 < width,
        0 <= c2 < width,
        0 <= r1,
        0 <= r2,
        r1 * width + c1 == r2 * width + c2,
    ensures
        c1 == c2,
        r1 == r2,
{
    if r1 < r2 {
        assert(r1 * width + width <= r2 * width) by (nonlinear_arith)
            requires
                r1 < r2,
                0 <= width,
        ;
    } else if r2 < r1 {
        assert(r2 * width + width <= r1 * width) by (nonlinear_arith)
            requires
                r2 < r1,
                0 <= width,
        ;
    }
}

proof fn lemma_pairs_nonempty(ws: Seq<ShadowBlend>, lo: int, hi: int, n: int)
    requires
        pairs_down(ws, MatchRule::Same, lo, hi, n).len() > 0,
    ensures
        exists|i: int| lo <= i <= hi && 0 <= i && #[trigger] rule_holds(MatchRule::Same, ws[i], ws[n]),
    decreases hi - lo + 1,
{
    if !rule_holds(MatchRule::Same, ws[hi], ws[n]) {
        lemma_pairs_nonempty(ws, lo, hi - 1, n);
    }
}

proof fn lemma_run_start_bounds(ws: Seq<ShadowBlend>, n: int)
    requires
        0 <= n,
    ensures
        0 <= run_start(ws, n) <= n,
    decreases n,
{
    if n > 0 {
        lemma_run_start_bounds(ws, n - 1);
    }
}

proof fn lemma_run_unblocked(ws: Seq<ShadowBlend>, n: int)
    requires
        n <= ws.len(),
    ensures
        forall|k: int| run_start(ws, n) <= k < n ==> !(#[trigger] ws[k]).blocked,
    decreases n,
{
    if n > 0 && !ws[n - 1].blocked {
        lemma_run_unblocked(ws, n - 1);
    }
}

/// A match found on a wall pairs two positions of one unblocked stretch
/// whose blends see a meme in common.
proof fn lemma_couples_nonempty(ws: Seq<ShadowBlend>, n: int)
    requires
        n <= ws.len(),
        couples(ws, MatchRule::Same, n).len() > 0,
    ensures
        exists|i: int, j: int|
            0 <= i < j < n && #[trigger] rule_holds(MatchRule::Same, ws[i], ws[j]) && forall|k: int|
                i <= k <= j ==> !(#[trigger] ws[k]).blocked,
    decreases n,
{
    if n > 0 {
        if !ws[n - 1].blocked && pairs_down(ws, MatchRule::Same, run_start(ws, n - 1), n - 2, n - 1).len() > 0 {
            lemma_run_start_bounds(ws, n - 1);
            lemma_run_unblocked(ws, n - 1);
            lemma_pairs_nonempty(ws, run_start(ws, n - 1), n - 2, n - 1);
            let i = choose|i: int| run_start(ws, n - 1) <= i <= n - 2 && 0 <= i && #[trigger] rule_holds(MatchRule::Same, ws[i], ws[n - 1]);
            assert(rule_holds(MatchRule::Same, ws[i], ws[n - 1]));
            assert forall|k: int| i <= k <= n - 1 implies !(#[trigger] ws[k]).blocked by {
                if k < n - 1 {
                    assert(run_start(ws, n - 1) <= k);
                }
            }
        } else {
            lemma_couples_nonempty(ws, n - 1);
            let (i, j) = choose|i: int, j: int|
                0 <= i < j < n - 1 && #[trigger] rule_holds(MatchRule::Same, ws[i], ws[j]) && forall|k: int|
                    i <= k <= j ==> !(#[trigger] ws[k]).blocked;
            assert(rule_holds(MatchRule::Same, ws[i], ws[j]));
        }
    }
}

proof fn lemma_intersection_common(xs: Seq<Meme>, ys: Seq<Meme>)
    requires
        meme_intersection(xs, ys).len() > 0,
    ensures
        exists|x: Meme| xs.contains(x) && ys.contains(x),
    decreases xs.len(),
{
    if ys.contains(xs[0]) {
        assert(xs.contains(xs[0]));
    } else {
        lemma_intersection_common(xs.drop_first(), ys);
        let x = choose|x: Meme| xs.drop_first().contains(x) && ys.contains(x);
        let k = choose|k: int| 0 <= k < xs.drop_first().len() && xs.drop_first()[k] == x;
        assert(xs[k + 1] == x);
    }
}

proof fn lemma_scan_back_found(t: Seq<Meme>, p: int, lo: int)
    ensures
        scan_back(t, p, lo) is Some ==> {
            let q = scan_back(t, p, lo)->Some_0;
            &&& 0 <= q <= p < t.len()
            &&& t[q] != NO_MEME
            &&& forall|k: int| q < k <= p ==> t[k] == NO_MEME
        },
    decreases p - lo + 1,
{
    if !(p < lo || p < 0 || p >= t.len()) && t[p] == NO_MEME {
        lemma_scan_back_found(t, p - 1, lo);
    }
}

proof fn lemma_scan_fwd_found(t: Seq<Meme>, p: int, hi: int)
    ensures
        scan_fwd(t, p, hi) is Some ==> {
            let q = scan_fwd(t, p, hi)->Some_0;
            &&& 0 <= p <= q < t.len()
            &&& t[q] != NO_MEME
            &&& forall|k: int| p <= k < q ==> t[k] == NO_MEME
        },
    decreases hi - p + 1,
{
    if !(p > hi || p < 0 || p >= t.len()) && t[p] == NO_MEME {
        lemma_scan_fwd_found(t, p + 1, hi);
    }
}

/// Position `w` of track `t` sees meme `x`: some other position holds `x`
/// and every position strictly between the two is empty.
pub open spec fn seen_from(t: Seq<Meme>, w: int, x: Meme) -> bool {
    exists|p: int|
        0 <= p < t.len() && p != w && t[p] == x && x != NO_MEME && forall|k: int|
            (p < k < w || w < k < p) ==> t[k] == NO_MEME
}

/// A meme that a blend sees lies on its track with nothing in between.
proof fn lemma_seen_on_track(b: ShadowBlend, t: Seq<Meme>, wall: int, x: Meme)
    requires
        0 <= wall < t.len(),
        is_blend(b, t, wall, (None, None)),
        blend_memes(b).contains(x),
    ensures
        seen_from(t, wall, x),
{
    let lo = wall - crate::shadow::reach_back(wall, (None, None));
    let hi = wall + crate::shadow::reach_fwd(t.len() as int, wall, (None, None));
    lemma_scan_back_found(t, wall - 1, lo);
    lemma_scan_fwd_found(t, wall + 1, hi);
    let k = choose|k: int| 0 <= k < blend_memes(b).len() && blend_memes(b)[k] == x;
    if b.traces@[0] is Some && k == 0 {
        let q = scan_back(t, wall - 1, lo)->Some_0;
        assert(t[q] == x);
    } else {
        let q = scan_fwd(t, wall + 1, hi)->Some_0;
        assert(t[q] == x);
    }
}

/// Tracks `i < j` hold meme `x` where position `wall` sees it, and the wall
/// positions of the tracks `i` to `j` are all empty: the two memes connect
/// along their tracks to the wall and along the wall to each other, with at
/// most two turns.
pub open spec fn wall_link(tracks: Seq<Seq<Meme>>, wall: int, i: int, j: int, x: Meme) -> bool {
    &&& 0 <= i < j < tracks.len()
    &&& forall|y: int| i <= y <= j ==> (#[trigger] tracks[y])[wall] == NO_MEME
    &&& seen_from(tracks[i], wall, x)
    &&& seen_from(tracks[j], wall, x)
}

proof fn lemma_wall_link(tracks: Seq<Seq<Meme>>, wall: int)
    requires
        forall|y: int| 0 <= y < tracks.len() ==> 0 <= wall < (#[trigger] tracks[y]).len(),
        wall_has_couple(tracks, wall),
    ensures
        exists|i: int, j: int, x: Meme| wall_link(tracks, wall, i, j, x),
{
    let ws = choose|ws: Seq<ShadowBlend>| blends_on(tracks, wall, ws) && couples(ws, MatchRule::Same, ws.len() as int).len() > 0;
    lemma_couples_nonempty(ws, ws.len() as int);
    let (i, j) = choose|i: int, j: int|
        0 <= i < j < ws.len() && #[trigger] rule_holds(MatchRule::Same, ws[i], ws[j]) && forall|k: int|
            i <= k <= j ==> !(#[trigger] ws[k]).blocked;
    lemma_intersection_common(blend_memes(ws[i]), blend_memes(ws[j]));
    let x = choose|x: Meme| blend_memes(ws[i]).contains(x) && blend_memes(ws[j]).contains(x);
    assert(is_blend(ws[i], tracks[i], wall, (None, None)));
    assert(is_blend(ws[j], tracks[j], wall, (None, None)));
    lemma_seen_on_track(ws[i], tracks[i], wall, x);
    lemma_seen_on_track(ws[j], tracks[j], wall, x);
    assert forall|y: int| i <= y <= j implies (#[trigger] tracks[y])[wall] == NO_MEME by {
        assert(!ws[y].blocked);
        assert(is_blend(ws[y], tracks[y], wall, (None, None)));
    }
    assert(wall_link(tracks, wall, i, j, x));
}

impl GameMap {
    /// When the shadow scan reports a move, two equal memes are linked through
    /// an inner wall: each sees the wall along its row (or column) over empty
    /// blocks, and the wall is empty between them. So a reported move is a
    /// real connection with at most two turns; the scan may still miss others.
    pub proof fn law_move_is_linked(&self)
        requires
            self.wf(),
            (exists|c: int| 1 <= c < self.columns - 1 && wall_has_couple(self.row_tracks(), c)) || (exists|w: int|
                1 <= w < self.rows - 1 && wall_has_couple(self.col_tracks(), w)),
        ensures
            (exists|c: int, i: int, j: int, x: Meme|
                1 <= c < self.columns - 1 && wall_link(self.row_tracks(), c, i, j, x)) || (exists|
                w: int,
                i: int,
                j: int,
                x: Meme,
            | 1 <= w < self.rows - 1 && wall_link(self.col_tracks(), w, i, j, x)),
    {
        if exists|c: int| 1 <= c < self.columns - 1 && wall_has_couple(self.row_tracks(), c) {
            let c = choose|c: int| 1 <= c < self.columns - 1 && wall_has_couple(self.row_tracks(), c);
            lemma_wall_link(self.row_tracks(), c);
            let (i, j, x) = choose|i: int, j: int, x: Meme| wall_link(self.row_tracks(), c, i, j, x);
            assert(1 <= c < self.columns - 1 && wall_link(self.row_tracks(), c, i, j, x));
        } else {
            let w = choose|w: int| 1 <= w < self.rows - 1 && wall_has_couple(self.col_tracks(), w);
            lemma_wall_link(self.col_tracks(), w);
            let (i, j, x) = choose|i: int, j: int, x: Meme| wall_link(self.col_tracks(), w, i, j, x);
            assert(1 <= w < self.rows - 1 && wall_link(self.col_tracks(), w, i, j, x));
        }
    }
}

} // verus!
