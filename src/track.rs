use vstd::prelude::*;

use crate::block::{
    block_dist_sqr, block_neighbours, block_small, dir_rank, lemma_neighbour_order, reverses, Block,
    Direction,
};

verus! {

/// Exploration state of a node of the search tree.
#[derive(Debug, Clone, Copy, PartialEq, Eq, Structural)]
pub enum ExploreFlag {
    /// Not yet explored
    Wild,
    /// Explored, no need to look at it again
    Explored,
    /// Meet goal at current node
    Goal,
}

/// A node of the search tree.
#[derive(Debug)]
pub struct TrackStep {
    /// Position in game board
    pub pos: Block,
    /// Indexes of children
    pub children: Vec<usize>,
    /// Index of parent, point to self for root node
    pub parent: usize,
    /// Spread direction from parent, not applicable for root node
    pub direction: Option<Direction>,
    /// Turn count from root node to this node
    pub turns: u8,
    /// Status of current node
    pub flag: ExploreFlag,
}

/// What a node of the search tree records, without its list of children.
pub struct StepView {
    pub pos: Block,
    pub parent: usize,
    pub direction: Option<Direction>,
    pub turns: u8,
    pub flag: ExploreFlag,
}

/// The search as a value: start, goal, the nodes in the order they were
/// added, and the index of the node under the cursor.
pub struct TrackView {
    pub start: Block,
    pub goal: Block,
    pub nodes: Seq<StepView>,
    pub current: int,
}

/// A greedy best-first search from `start` to `goal` over the board, turning
/// at most twice. The search tree is an arena of nodes addressed by index.
#[derive(Debug)]
pub struct Track {
    /// The start block
    start: Block,
    /// The goal block to reach
    goal: Block,
    /// Store the exploration information
    search_tree: Vec<TrackStep>,
    /// Current exploration progress in search tree
    current: usize,
}

pub open spec fn step_view(s: TrackStep) -> StepView {
    StepView { pos: s.pos, parent: s.parent, direction: s.direction, turns: s.turns, flag: s.flag }
}

/// The turns a node reached from `parent` in direction `d` has made: one more
/// than its parent when `d` differs from the direction the parent was reached
/// in.
pub open spec fn turns_after(parent: StepView, d: Direction) -> int {
    match parent.direction {
        Some(pd) => if pd != d {
            parent.turns + 1
        } else {
            parent.turns as int
        },
        None => parent.turns as int,
    }
}

/// Node `i` hangs correctly below its parent.
pub open spec fn node_ok(v: TrackView, i: int) -> bool {
    let n = v.nodes[i];
    &&& block_small(n.pos)
    &&& n.turns <= 2
    &&& n.flag == ExploreFlag::Goal ==> n.pos == v.goal
    &&& i > 0 ==> {
        let p = v.nodes[n.parent as int];
        &&& n.parent < i
        &&& n.direction is Some
        &&& n.turns == turns_after(p, n.direction->Some_0)
        &&& block_neighbours(p.pos).contains((n.direction->Some_0, n.pos))
        &&& p.direction is Some ==> !reverses(p.direction->Some_0, n.direction->Some_0)
        &&& p.flag != ExploreFlag::Wild
    }
}

/// The search tree is well formed: it is rooted at the start, every node is
/// reached from an earlier one, no position appears twice, and no node has
/// turned more than twice.
pub open spec fn tree_wf(v: TrackView) -> bool {
    &&& v.nodes.len() >= 1
    &&& 0 <= v.current < v.nodes.len()
    &&& block_small(v.start)
    &&& block_small(v.goal)
    &&& v.nodes[0].pos == v.start
    &&& v.nodes[0].direction is None
    &&& v.nodes[0].turns == 0
    &&& v.nodes[0].parent == 0
    &&& forall|i: int| 0 <= i < v.nodes.len() ==> node_ok(v, i)
    &&& forall|i: int, j: int|
        0 <= i < j < v.nodes.len() ==> (#[trigger] v.nodes[i]).pos != (#[trigger] v.nodes[j]).pos
}

/// The `n`-th ancestor of node `i` (node `i` itself for `n == 0`).
pub open spec fn ancestor(v: TrackView, i: int, n: nat) -> int
    decreases n,
{
    if n == 0 {
        i
    } else {
        v.nodes[ancestor(v, i, (n - 1) as nat)].parent as int
    }
}

/// The positions from the root down to node `i`.
pub open spec fn lineage(v: TrackView, i: int) -> Seq<Block>
    decreases i,
{
    if i <= 0 || i >= v.nodes.len() || v.nodes[i].parent >= i {
        seq![v.start]
    } else {
        lineage(v, v.nodes[i].parent as int).push(v.nodes[i].pos)
    }
}

/// Going up from any node towards the root, the number of turns never grows
/// and never exceeds two: along every root-to-node path the turns are
/// non-decreasing and at most two.
pub proof fn law_turns_monotone(v: TrackView, i: int, n: nat)
    requires
        tree_wf(v),
        0 <= i < v.nodes.len(),
    ensures
        0 <= ancestor(v, i, n) < v.nodes.len(),
        0 <= ancestor(v, i, n + 1) <= ancestor(v, i, n),
        v.nodes[ancestor(v, i, n + 1)].turns <= v.nodes[ancestor(v, i, n)].turns <= 2,
    decreases n,
{
    if n > 0 {
        law_turns_monotone(v, i, (n - 1) as nat);
    }
    let a = ancestor(v, i, n);
    assert(node_ok(v, a));
}

/// A neighbour of the node under the cursor, reached in direction `d`, that
/// the search may step on, validation aside: it does not go back, is not in
/// the tree yet, and keeps the turns at two at most.
pub open spec fn child_allowed(v: TrackView, d: Direction, pos: Block) -> bool {
    let cur = v.nodes[v.current];
    &&& cur.direction is Some ==> !reverses(cur.direction->Some_0, d)
    &&& forall|k: int| 0 <= k < v.nodes.len() ==> (#[trigger] v.nodes[k]).pos != pos
    &&& turns_after(cur, d) <= 2
}

/// `s` is a well-formed child of the node under the cursor of `v`.
pub open spec fn child_ok(v: TrackView, s: StepView) -> bool {
    let cur = v.nodes[v.current];
    &&& s.parent == v.current
    &&& s.direction is Some
    &&& block_neighbours(cur.pos).contains((s.direction->Some_0, s.pos))
    &&& s.turns == turns_after(cur, s.direction->Some_0)
    &&& child_allowed(v, s.direction->Some_0, s.pos)
    &&& s.turns <= 2
    &&& block_small(s.pos)
    &&& (s.flag == ExploreFlag::Goal) == (s.pos == v.goal)
    &&& s.flag != ExploreFlag::Explored
}

impl View for Track {
    type V = TrackView;

    closed spec fn view(&self) -> TrackView {
        TrackView {
            start: self.start,
            goal: self.goal,
            nodes: self.search_tree@.map_values(|s: TrackStep| step_view(s)),
            current: self.current as int,
        }
    }
}

impl Track {
    pub fn new(start: Block, goal: Block) -> (r: Self)
        requires
            block_small(start),
            block_small(goal),
        ensures
            tree_wf(r@),
            r@.start == start,
            r@.goal == goal,
            r@.nodes.len() == 1,
            r@.current == 0,
            r@.nodes[0].flag == ExploreFlag::Wild,
    {
        let r = Self {
            start,
            goal,
            search_tree: vec![
                TrackStep {
                    pos: start,
                    children: Vec::new(),
                    parent: 0,
                    direction: None,
                    turns: 0,
                    flag: ExploreFlag::Wild,
                },
            ],
            current: 0,
        };
        assert(node_ok(r@, 0));
        r
    }

    fn current_step(&self) -> (r: &TrackStep)
        requires
            tree_wf(self@),
        ensures
            step_view(*r) == self@.nodes[self@.current],
    {
        &self.search_tree[self.current]
    }

    /// Positions of every node of the search tree, in the order they were
    /// added.
    fn traversed(&self) -> (r: Vec<Block>)
        ensures
            r@.len() == self@.nodes.len(),
            forall|i: int| 0 <= i < r@.len() ==> #[trigger] r@[i] == self@.nodes[i].pos,
    {
        let mut r: Vec<Block> = Vec::new();
        let mut i: usize = 0;
        while i < self.search_tree.len()
            invariant
                i <= self.search_tree@.len(),
                r@.len() == i,
                forall|k: int| 0 <= k < i ==> #[trigger] r@[k] == self@.nodes[k].pos,
            decreases self.search_tree@.len() - i,
        {
            r.push(self.search_tree[i].pos);
            i = i + 1;
        }
        r
    }

    pub fn goal_found(&self) -> (r: bool)
        requires
            tree_wf(self@),
        ensures
            r == (self@.nodes[self@.current].flag == ExploreFlag::Goal),
    {
        self.current_step().flag == ExploreFlag::Goal
    }

    /// The positions from the start down to the node under the cursor.
    pub fn backtrace(&self) -> (r: Vec<Block>)
        requires
            tree_wf(self@),
        ensures
            r@ == lineage(self@, self@.current),
    {
        let ghost v = self@;
        let mut trace: Vec<Block> = Vec::new();
        let mut tracer: usize = self.current;
        while tracer != 0
            invariant
                v == self@,
                tree_wf(v),
                0 <= tracer < v.nodes.len(),
                lineage(v, v.current) == lineage(v, tracer as int) + trace@,
            decreases tracer,
        {
            let step = &self.search_tree[tracer];
            assert(node_ok(v, tracer as int));
            assert(lineage(v, tracer as int) == lineage(v, step.parent as int).push(step.pos));
            trace.insert(0, step.pos);
            assert(lineage(v, v.current) =~= lineage(v, step.parent as int) + trace@);
            tracer = step.parent;
        }
        trace.insert(0, self.start);
        assert(lineage(v, v.current) =~= trace@);
        trace
    }

    /// Whether `pos` is already in `nodes`.
    fn seen(nodes: &Vec<Block>, pos: &Block) -> (r: bool)
        ensures
            r == exists|k: int| 0 <= k < nodes@.len() && #[trigger] nodes@[k] == *pos,
    {
        let mut i: usize = 0;
        while i < nodes.len()
            invariant
                i <= nodes@.len(),
                forall|k: int| 0 <= k < i ==> #[trigger] nodes@[k] != *pos,
            decreases nodes@.len() - i,
        {
            if nodes[i] == *pos {
                return true;
            }
            i = i + 1;
        }
        false
    }

    /// The children of the node under the cursor: its neighbours, in the
    /// order up, down, left, right, that do not go back, are not in the tree
    /// yet, are the goal or pass `validate`, and keep the turns at two at
    /// most.
    fn explore<F: Fn(&Block) -> bool>(&self, validate: &F) -> (r: Vec<TrackStep>)
        requires
            tree_wf(self@),
            self@.nodes[self@.current].flag == ExploreFlag::Wild,
            forall|b: Block| validate.requires((&b,)),
            forall|b: Block, ok: bool| validate.ensures((&b,), ok) && ok ==> block_small(b),
        ensures
            forall|i: int| 0 <= i < r@.len() ==> child_ok(self@, step_view(#[trigger] r@[i])),
            forall|i: int| 0 <= i < r@.len() ==> (#[trigger] r@[i]).pos == self@.goal || validate.ensures((&r@[i].pos,), true),
            forall|i: int, j: int|
                0 <= i < j < r@.len() ==> (#[trigger] r@[i]).pos != (#[trigger] r@[j]).pos && dir_rank(
                    r@[i].direction->Some_0,
                ) < dir_rank(r@[j].direction->Some_0),
            forall|k: int|
                0 <= k < block_neighbours(self@.nodes[self@.current].pos).len() && ({
                    let (d, pos) = #[trigger] block_neighbours(self@.nodes[self@.current].pos)[k];
                    child_allowed(self@, d, pos) && (pos == self@.goal || forall|ok: bool|
                        validate.ensures((&pos,), ok) ==> ok)
                }) ==> exists|x: int|
                    0 <= x < r@.len() && (#[trigger] r@[x]).pos == block_neighbours(
                        self@.nodes[self@.current].pos,
                    )[k].1,
    {
        let ghost v = self@;
        let current_step = self.current_step();
        let neighbours = current_step.pos.neighbours();
        let ghost nb = neighbours@;
        proof {
            lemma_neighbour_order(current_step.pos);
        }
        let traversed = self.traversed();
        let mut children: Vec<TrackStep> = Vec::new();
        let mut taken: Vec<Block> = Vec::new();
        let mut i: usize = 0;
        while i < neighbours.len()
            invariant
                v == self@,
                tree_wf(v),
                step_view(*current_step) == v.nodes[v.current],
                nb == neighbours@,
                nb == block_neighbours(current_step.pos),
                forall|a: int, b: int|
                    0 <= a < b < nb.len() ==> dir_rank(#[trigger] nb[a].0) < dir_rank(#[trigger] nb[b].0)
                        && nb[a].1 != nb[b].1,
                traversed@.len() == v.nodes.len(),
                forall|k: int| 0 <= k < traversed@.len() ==> #[trigger] traversed@[k] == v.nodes[k].pos,
                forall|b: Block| validate.requires((&b,)),
                forall|b: Block, ok: bool| validate.ensures((&b,), ok) && ok ==> block_small(b),
                i <= nb.len(),
                taken@.len() == children@.len(),
                forall|k: int| 0 <= k < children@.len() ==> #[trigger] taken@[k] == children@[k].pos,
                forall|x: int| 0 <= x < children@.len() ==> child_ok(v, step_view(#[trigger] children@[x])),
                forall|x: int|
                    0 <= x < children@.len() ==> (#[trigger] children@[x]).pos == v.goal || validate.ensures(
                        (&children@[x].pos,),
                        true,
                    ),
                forall|x: int|
                    0 <= x < children@.len() ==> exists|k: int|
                        0 <= k < i && #[trigger] nb[k] == ((#[trigger] children@[x]).direction->Some_0, children@[x].pos),
                forall|x: int, y: int|
                    0 <= x < y < children@.len() ==> (#[trigger] children@[x]).pos != (#[trigger] children@[y]).pos
                        && dir_rank(children@[x].direction->Some_0) < dir_rank(children@[y].direction->Some_0),
                forall|x: int|
                    0 <= x < children@.len() && i < nb.len() ==> dir_rank((#[trigger] children@[x]).direction->Some_0)
                        < dir_rank(nb[i as int].0),
                forall|k: int|
                    0 <= k < i && ({
                        let (d, pos) = #[trigger] nb[k];
                        child_allowed(v, d, pos) && (pos == v.goal || forall|ok: bool|
                            validate.ensures((&pos,), ok) ==> ok)
                    }) ==> exists|x: int| 0 <= x < children@.len() && (#[trigger] children@[x]).pos == nb[k].1,
            decreases nb.len() - i,
        {
            let (direction, pos) = neighbours[i];
            assert(nb[i as int] == (direction, pos));
            let back = match current_step.direction {
                Some(curdir) => direction.is_opposite(curdir),
                None => false,
            };
            proof {
                assert(node_ok(v, v.current));
            }
            let in_tree = Self::seen(&traversed, &pos);
            let in_children = Self::seen(&taken, &pos);
            proof {
                if in_children {
                    let x = choose|x: int| 0 <= x < taken@.len() && #[trigger] taken@[x] == pos;
                    assert(taken@[x] == children@[x].pos);
                    let k = choose|k: int| 0 <= k < i && #[trigger] nb[k] == (children@[x].direction->Some_0, children@[x].pos);
                    assert(nb[k].1 == nb[i as int].1);
                    assert(false);
                }
            }
            let ghost before = children@;
            if !back && !in_tree {
                let is_goal = pos == self.goal;
                let accepted = if is_goal {
                    true
                } else {
                    validate(&pos)
                };
                if accepted {
                    let turns: u8 = match current_step.direction {
                        Some(dir) => if direction != dir {
                            current_step.turns + 1
                        } else {
                            current_step.turns
                        },
                        None => current_step.turns,
                    };
                    if turns <= 2 {
                        assert forall|k: int| 0 <= k < v.nodes.len() implies (#[trigger] v.nodes[k]).pos
                            != pos by {
                            assert(traversed@[k] == v.nodes[k].pos);
                        }
                        assert forall|k: int| 0 <= k < children@.len() implies (
                        #[trigger] children@[k]).pos != pos by {
                            assert(taken@[k] == children@[k].pos);
                        }
                        let flag = if is_goal {
                            ExploreFlag::Goal
                        } else {
                            ExploreFlag::Wild
                        };
                        let step = TrackStep {
                            pos,
                            children: Vec::new(),
                            parent: self.current,
                            direction: Some(direction),
                            turns,
                            flag,
                        };
                        children.push(step);
                        taken.push(pos);
                        assert(block_neighbours(v.nodes[v.current].pos).contains((direction, pos)));
                        assert(child_ok(v, step_view(children@[children@.len() - 1])));
                    }
                }
            }
            proof {
                assert forall|x: int| 0 <= x < children@.len() implies exists|k: int|
                    0 <= k < i + 1 && #[trigger] nb[k] == ((#[trigger] children@[x]).direction->Some_0, children@[x].pos) by {
                    if x < before.len() {
                        assert(children@[x] == before[x]);
                    } else {
                        assert(nb[i as int] == (children@[x].direction->Some_0, children@[x].pos));
                    }
                }
                assert forall|x: int| 0 <= x < children@.len() && i + 1 < nb.len() implies dir_rank(
                    (#[trigger] children@[x]).direction->Some_0,
                ) < dir_rank(nb[i + 1].0) by {
                    let k = choose|k: int| 0 <= k < i + 1 && #[trigger] nb[k] == (children@[x].direction->Some_0, children@[x].pos);
                    assert(dir_rank(nb[k].0) < dir_rank(nb[i + 1].0));
                }
                assert forall|k: int|
                    0 <= k < i + 1 && ({
                        let (d, pos) = #[trigger] nb[k];
                        child_allowed(v, d, pos) && (pos == v.goal || forall|ok: bool|
                            validate.ensures((&pos,), ok) ==> ok)
                    }) implies exists|x: int| 0 <= x < children@.len() && (#[trigger] children@[x]).pos == nb[k].1 by {
                    if k < i {
                        let x = choose|x: int| 0 <= x < before.len() && (#[trigger] before[x]).pos == nb[k].1;
                        assert(children@[x] == before[x]);
                    } else {
                        assert(children@.len() == before.len() + 1);
                        assert(children@[before.len() as int].pos == nb[k].1);
                    }
                }
            }
            i = i + 1;
        }
        children
    }

    /// Among the nodes listed in `routes`, the first one closest to the goal.
    fn route_chooser(&self, routes: &Vec<usize>) -> (r: Option<usize>)
        requires
            tree_wf(self@),
            forall|k: int| 0 <= k < routes@.len() ==> #[trigger] routes@[k] < self@.nodes.len(),
        ensures
            r is None <==> routes@.len() == 0,
            r is Some ==> {
                let best = r->Some_0;
                &&& routes@.contains(best)
                &&& forall|k: int|
                    0 <= k < routes@.len() ==> block_dist_sqr(self@.nodes[best as int].pos, self@.goal)
                        <= block_dist_sqr(self@.nodes[#[trigger] routes@[k] as int].pos, self@.goal)
                &&& forall|k: int|
                    0 <= k < routes@.len() && block_dist_sqr(
                        self@.nodes[#[trigger] routes@[k] as int].pos,
                        self@.goal,
                    ) == block_dist_sqr(self@.nodes[best as int].pos, self@.goal) ==> exists|b: int|
                        0 <= b <= k && routes@[b] == best
            },
    {
        let ghost v = self@;
        if routes.len() == 0 {
            return None;
        }
        assert(node_ok(v, routes@[0] as int));
        let mut best: usize = routes[0];
        let mut best_pos: usize = 0;
        let mut best_dist: i64 = self.search_tree[best].pos.distance_sqr(&self.goal);
        let mut i: usize = 1;
        while i < routes.len()
            invariant
                v == self@,
                tree_wf(v),
                forall|k: int| 0 <= k < routes@.len() ==> #[trigger] routes@[k] < v.nodes.len(),
                1 <= i <= routes@.len(),
                best_pos < i,
                routes@[best_pos as int] == best,
                best < v.nodes.len(),
                best_dist == block_dist_sqr(v.nodes[best as int].pos, v.goal),
                forall|k: int| 0 <= k < i ==> best_dist <= block_dist_sqr(v.nodes[#[trigger] routes@[k] as int].pos, v.goal),
                forall|k: int| 0 <= k < best_pos ==> best_dist < block_dist_sqr(v.nodes[#[trigger] routes@[k] as int].pos, v.goal),
            decreases routes@.len() - i,
        {
            let idx = routes[i];
            assert(node_ok(v, idx as int));
            let d = self.search_tree[idx].pos.distance_sqr(&self.goal);
            if d < best_dist {
                best = idx;
                best_pos = i;
                best_dist = d;
            }
            i = i + 1;
        }
        assert(routes@[best_pos as int] == best);
        Some(best)
    }

    /// Add the children of the node under the cursor to the tree, and mark
    /// that node explored.
    fn grow<F: Fn(&Block) -> bool>(&mut self, validate: &F)
        requires
            tree_wf(old(self)@),
            old(self)@.nodes[old(self)@.current].flag == ExploreFlag::Wild,
            forall|b: Block| validate.requires((&b,)),
            forall|b: Block, ok: bool| validate.ensures((&b,), ok) && ok ==> block_small(b),
        ensures
            grown(old(self)@, final(self)@),
            all_children_added(old(self)@, final(self)@, *validate),
            forall|k: int|
                old(self)@.nodes.len() <= k < final(self)@.nodes.len() ==> (#[trigger] final(self)@.nodes[k]).pos
                    == old(self)@.goal || validate.ensures((&final(self)@.nodes[k].pos,), true),
    {
        let ghost v0 = self@;
        let next_idx = self.search_tree.len();
        let mut children = self.explore(validate);
        let ghost kids = children@;
        let cur = self.current;
        self.search_tree.append(&mut children);
        let mut child_idx: Vec<usize> = Vec::new();
        let mut k: usize = 0;
        while k < self.search_tree[cur].children.len()
            invariant
                cur < self.search_tree@.len(),
            decreases self.search_tree@[cur as int].children@.len() - k,
        {
            child_idx.push(self.search_tree[cur].children[k]);
            k = k + 1;
        }
        let mut k: usize = next_idx;
        while k < self.search_tree.len()
            decreases self.search_tree@.len() - k,
        {
            child_idx.push(k);
            k = k + 1;
        }
        let old_step = &self.search_tree[cur];
        let updated = TrackStep {
            pos: old_step.pos,
            children: child_idx,
            parent: old_step.parent,
            direction: old_step.direction,
            turns: old_step.turns,
            flag: ExploreFlag::Explored,
        };
        self.search_tree.set(cur, updated);
        let ghost v1 = self@;
        assert(v1.nodes.len() == v0.nodes.len() + kids.len());
        assert forall|k: int| 0 <= k < v0.nodes.len() && k != v0.current implies #[trigger] v1.nodes[k]
            == v0.nodes[k] by {}
        assert forall|k: int| v0.nodes.len() <= k < v1.nodes.len() implies #[trigger] v1.nodes[k]
            == step_view(kids[k - v0.nodes.len()]) by {}
        assert forall|k: int| v0.nodes.len() <= k < v1.nodes.len() implies (#[trigger] v1.nodes[k]).pos
            == v0.goal || validate.ensures((&v1.nodes[k].pos,), true) by {
            assert(v1.nodes[k] == step_view(kids[k - v0.nodes.len()]));
        }
        assert(v1.nodes[v0.current] == (StepView { flag: ExploreFlag::Explored, ..v0.nodes[v0.current] }));
        assert forall|i: int| 0 <= i < v1.nodes.len() implies node_ok(v1, i) by {
            assert(node_ok(v0, v0.current));
            if i < v0.nodes.len() {
                assert(node_ok(v0, i));
                if i > 0 {
                    let p = v0.nodes[i].parent as int;
                    assert(v1.nodes[p].pos == v0.nodes[p].pos);
                }
            } else {
                let c = kids[i - v0.nodes.len()];
                assert(step_view(c).parent == v0.current);
            }
        }
        let ghost nb = block_neighbours(v0.nodes[v0.current].pos);
        assert forall|k: int|
            0 <= k < nb.len() && ({
                let (d, pos) = #[trigger] nb[k];
                child_allowed(v0, d, pos) && (pos == v0.goal || forall|ok: bool|
                    validate.ensures((&pos,), ok) ==> ok)
            }) implies exists|x: int|
            v0.nodes.len() <= x < v1.nodes.len() && (#[trigger] v1.nodes[x]).pos == nb[k].1 by {
            let x = choose|x: int| 0 <= x < kids.len() && (#[trigger] kids[x]).pos == nb[k].1;
            assert(v1.nodes[v0.nodes.len() + x] == step_view(kids[x]));
        }
        assert forall|k1: int, k2: int|
            v0.nodes.len() <= k1 < k2 < v1.nodes.len() implies dir_rank(
                (#[trigger] v1.nodes[k1]).direction->Some_0,
            ) < dir_rank((#[trigger] v1.nodes[k2]).direction->Some_0) by {
            assert(v1.nodes[k1] == step_view(kids[k1 - v0.nodes.len()]));
            assert(v1.nodes[k2] == step_view(kids[k2 - v0.nodes.len()]));
        }
        assert forall|i: int, j: int| 0 <= i < j < v1.nodes.len() implies (#[trigger] v1.nodes[i]).pos
            != (#[trigger] v1.nodes[j]).pos by {
            if j < v0.nodes.len() {
                assert(v0.nodes[i].pos != v0.nodes[j].pos);
                assert(v1.nodes[i].pos == v0.nodes[i].pos);
            } else if i < v0.nodes.len() {
                let c = kids[j - v0.nodes.len()];
                assert(v0.nodes[i].pos != step_view(c).pos);
                assert(v1.nodes[i].pos == v0.nodes[i].pos);
            } else {
                assert(kids[i - v0.nodes.len()].pos != kids[j - v0.nodes.len()].pos);
            }
        }
    }

    /// The first node from index `from` on that is the goal.
    fn first_goal_from(&self, from: usize) -> (r: Option<usize>)
        ensures
            match r {
                Some(g) => from <= g < self@.nodes.len() && self@.nodes[g as int].flag == ExploreFlag::Goal
                    && forall|k: int| from <= k < g ==> #[trigger] self@.nodes[k].flag != ExploreFlag::Goal,
                None => forall|k: int| from <= k < self@.nodes.len() ==> #[trigger] self@.nodes[k].flag != ExploreFlag::Goal,
            },
    {
        let mut g: usize = from;
        while g < self.search_tree.len()
            invariant
                from <= g,
                forall|k: int| from <= k < g ==> #[trigger] self@.nodes[k].flag != ExploreFlag::Goal,
            decreases self@.nodes.len() - g,
        {
            if self.search_tree[g].flag == ExploreFlag::Goal {
                return Some(g);
            }
            g = g + 1;
        }
        None
    }

    /// The indexes of the unexplored nodes, in order.
    fn wild_nodes(&self) -> (r: Vec<usize>)
        ensures
            forall|k: int| 0 <= k < r@.len() ==> #[trigger] r@[k] < self@.nodes.len()
                && self@.nodes[r@[k] as int].flag == ExploreFlag::Wild,
            forall|k: int|
                0 <= k < self@.nodes.len() && #[trigger] self@.nodes[k].flag == ExploreFlag::Wild
                    ==> exists|x: int| 0 <= x < r@.len() && r@[x] as int == k,
            forall|a: int, b: int| 0 <= a < b < r@.len() ==> #[trigger] r@[a] < #[trigger] r@[b],
    {
        let mut wild: Vec<usize> = Vec::new();
        let mut w: usize = 0;
        while w < self.search_tree.len()
            invariant
                w <= self@.nodes.len(),
                forall|k: int| 0 <= k < wild@.len() ==> #[trigger] wild@[k] < self@.nodes.len()
                    && self@.nodes[wild@[k] as int].flag == ExploreFlag::Wild,
                forall|k: int|
                    0 <= k < w && #[trigger] self@.nodes[k].flag == ExploreFlag::Wild ==> exists|x: int|
                        0 <= x < wild@.len() && wild@[x] as int == k,
                forall|a: int| 0 <= a < wild@.len() ==> #[trigger] wild@[a] < w,
                forall|a: int, b: int| 0 <= a < b < wild@.len() ==> #[trigger] wild@[a] < #[trigger] wild@[b],
            decreases self@.nodes.len() - w,
        {
            if self.search_tree[w].flag == ExploreFlag::Wild {
                let ghost prev = wild@;
                wild.push(w);
                assert forall|k: int| 0 <= k < w + 1 && #[trigger] self@.nodes[k].flag == ExploreFlag::Wild
                    implies exists|x: int| 0 <= x < wild@.len() && wild@[x] as int == k by {
                    if k < w {
                        let x = choose|x: int| 0 <= x < prev.len() && prev[x] as int == k;
                        assert(wild@[x] as int == k);
                    } else {
                        assert(wild@[prev.len() as int] as int == k);
                    }
                }
            }
            w = w + 1;
        }
        wild
    }

    /// One step of the search. The node under the cursor gets its children
    /// and is marked explored. If a child is the goal, the cursor jumps to the
    /// first such child and the search is done (`false`). Otherwise the cursor
    /// moves to the first of the unexplored nodes of the whole tree that is
    /// closest to the goal (`true`), or stays where it is when no unexplored
    /// node is left (`false`).
    #[verifier::rlimit(50)]
    pub fn search<F: Fn(&Block) -> bool>(&mut self, validate: &F) -> (r: bool)
        requires
            tree_wf(old(self)@),
            old(self)@.nodes[old(self)@.current].flag == ExploreFlag::Wild,
            forall|b: Block| validate.requires((&b,)),
            forall|b: Block, ok: bool| validate.ensures((&b,), ok) && ok ==> block_small(b),
        ensures
            tree_wf(final(self)@),
            grown(old(self)@, (TrackView { current: old(self)@.current, ..final(self)@ })),
            all_children_added(old(self)@, final(self)@, *validate),
            forall|k: int|
                old(self)@.nodes.len() <= k < final(self)@.nodes.len() ==> (#[trigger] final(self)@.nodes[k]).pos
                    == old(self)@.goal || validate.ensures((&final(self)@.nodes[k].pos,), true),
            goal_child(old(self)@, final(self)@) ==> {
                &&& !r
                &&& old(self)@.nodes.len() <= final(self)@.current
                &&& final(self)@.nodes[final(self)@.current].flag == ExploreFlag::Goal
                &&& forall|k: int|
                    old(self)@.nodes.len() <= k < final(self)@.current ==> #[trigger] final(self)@.nodes[k].flag
                        != ExploreFlag::Goal
            },
            !goal_child(old(self)@, final(self)@) && wild_left(final(self)@) ==> {
                &&& r
                &&& final(self)@.nodes[final(self)@.current].flag == ExploreFlag::Wild
                &&& forall|k: int|
                    0 <= k < final(self)@.nodes.len() && #[trigger] final(self)@.nodes[k].flag
                        == ExploreFlag::Wild ==> block_dist_sqr(
                        final(self)@.nodes[final(self)@.current].pos,
                        final(self)@.goal,
                    ) <= block_dist_sqr(final(self)@.nodes[k].pos, final(self)@.goal)
                &&& forall|k: int|
                    0 <= k < final(self)@.current && #[trigger] final(self)@.nodes[k].flag
                        == ExploreFlag::Wild ==> block_dist_sqr(
                        final(self)@.nodes[final(self)@.current].pos,
                        final(self)@.goal,
                    ) < block_dist_sqr(final(self)@.nodes[k].pos, final(self)@.goal)
            },
            !goal_child(old(self)@, final(self)@) && !wild_left(final(self)@) ==> !r
                && final(self)@.current == old(self)@.current,
    {
        let ghost v0 = self@;
        let next_idx = self.search_tree.len();
        self.grow(validate);
        let ghost v1 = self@;
        assert(tree_wf(v1));
        // Check if there is any goal in children
        if let Some(g) = self.first_goal_from(next_idx) {
            // Jump to goal
            self.current = g;
            proof {
                lemma_move_cursor(v1, self@);
            }
            assert(goal_child(v0, self@));
            return false;
        }
        assert(!goal_child(v0, v1));
        // Try other wild nodes for better chance to meet goal
        let wild_nodes = self.wild_nodes();
        match self.route_chooser(&wild_nodes) {
            Some(next) => {
                assert forall|k: int| 0 <= k < v1.nodes.len() && #[trigger] v1.nodes[k].flag
                    == ExploreFlag::Wild implies block_dist_sqr(v1.nodes[next as int].pos, v1.goal)
                    <= block_dist_sqr(v1.nodes[k].pos, v1.goal) by {
                    let x = choose|x: int| 0 <= x < wild_nodes@.len() && wild_nodes@[x] as int == k;
                    assert(block_dist_sqr(v1.nodes[next as int].pos, v1.goal) <= block_dist_sqr(
                        v1.nodes[wild_nodes@[x] as int].pos,
                        v1.goal,
                    ));
                }
                assert forall|k: int| 0 <= k < next && #[trigger] v1.nodes[k].flag
                    == ExploreFlag::Wild implies block_dist_sqr(v1.nodes[next as int].pos, v1.goal)
                    < block_dist_sqr(v1.nodes[k].pos, v1.goal) by {
                    let x = choose|x: int| 0 <= x < wild_nodes@.len() && wild_nodes@[x] as int == k;
                    if block_dist_sqr(v1.nodes[k].pos, v1.goal) == block_dist_sqr(v1.nodes[next as int].pos, v1.goal) {
                        assert(block_dist_sqr(v1.nodes[wild_nodes@[x] as int].pos, v1.goal) == block_dist_sqr(v1.nodes[next as int].pos, v1.goal));
                        let b = choose|b: int| 0 <= b <= x && wild_nodes@[b] == next;
                        if b < x {
                            assert(wild_nodes@[b] < wild_nodes@[x]);
                        }
                    }
                }
                self.current = next;
                proof {
                    lemma_move_cursor(v1, self@);
                }
                assert(wild_left(v1));
                assert(self@.nodes[next as int].flag == ExploreFlag::Wild);
                true
            },
            None => {
                assert(!wild_left(v1)) by {
                    if wild_left(v1) {
                        let k = choose|k: int| 0 <= k < v1.nodes.len() && #[trigger] v1.nodes[k].flag == ExploreFlag::Wild;
                        let x = choose|x: int| 0 <= x < wild_nodes@.len() && wild_nodes@[x] as int == k;
                        assert(wild_nodes@.len() > 0);
                    }
                }
                false
            },
        }
    }
}

/// Moving the cursor to another node keeps the tree well formed.
proof fn lemma_move_cursor(before: TrackView, after: TrackView)
    requires
        tree_wf(before),
        after.nodes == before.nodes,
        after.start == before.start,
        after.goal == before.goal,
        0 <= after.current < after.nodes.len(),
    ensures
        tree_wf(after),
{
    assert forall|i: int| 0 <= i < after.nodes.len() implies node_ok(after, i) by {
        assert(node_ok(before, i));
    }
}

/// `after` is `before` with the node under the cursor explored and its
/// children appended.
pub open spec fn grown(before: TrackView, after: TrackView) -> bool {
    &&& tree_wf(after)
    &&& after.start == before.start
    &&& after.goal == before.goal
    &&& after.current == before.current
    &&& after.nodes.len() >= before.nodes.len()
    &&& forall|k: int|
        0 <= k < before.nodes.len() && k != before.current ==> #[trigger] after.nodes[k]
            == before.nodes[k]
    &&& after.nodes[before.current] == (StepView {
        flag: ExploreFlag::Explored,
        ..before.nodes[before.current]
    })
    &&& forall|k: int| before.nodes.len() <= k < after.nodes.len() ==> child_ok(before, #[trigger] after.nodes[k])
    &&& forall|k1: int, k2: int|
        before.nodes.len() <= k1 < k2 < after.nodes.len() ==> dir_rank(
            (#[trigger] after.nodes[k1]).direction->Some_0,
        ) < dir_rank((#[trigger] after.nodes[k2]).direction->Some_0)
}

/// Every neighbour of the node under the cursor of `before` that the search
/// may step on and that is the goal or is surely accepted by `validate` is
/// among the nodes that `after` adds.
pub open spec fn all_children_added<F: Fn(&Block) -> bool>(before: TrackView, after: TrackView, validate: F) -> bool {
    let nb = block_neighbours(before.nodes[before.current].pos);
    forall|k: int|
        0 <= k < nb.len() && ({
            let (d, pos) = #[trigger] nb[k];
            child_allowed(before, d, pos) && (pos == before.goal || forall|ok: bool|
                validate.ensures((&pos,), ok) ==> ok)
        }) ==> exists|x: int|
            before.nodes.len() <= x < after.nodes.len() && (#[trigger] after.nodes[x]).pos == nb[k].1
}

/// A child added in the step from `before` to `after` is the goal.
pub open spec fn goal_child(before: TrackView, after: TrackView) -> bool {
    exists|k: int| before.nodes.len() <= k < after.nodes.len() && #[trigger] after.nodes[k].flag == ExploreFlag::Goal
}

/// Some node of the tree is still unexplored.
pub open spec fn wild_left(v: TrackView) -> bool {
    exists|k: int| 0 <= k < v.nodes.len() && #[trigger] v.nodes[k].flag == ExploreFlag::Wild
}

} // verus!
