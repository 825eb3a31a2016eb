use vstd::prelude::*;

use crate::shadow::{blend_memes, meme_intersection, Meme, ShadowBlend};

verus! {

/// Which pairs of blends along a wall count as a match.
#[derive(Debug, Clone, Copy, PartialEq, Eq, Structural)]
pub enum MatchRule {
    /// Both blends see a meme in common.
    Same,
    /// Both blends see the given meme.
    OnlyMeme(Meme),
}

/// Finds matching pairs of positions along a wall of shadow blends.
pub struct Matcher {}

pub open spec fn rule_holds(rule: MatchRule, a: ShadowBlend, b: ShadowBlend) -> bool {
    match rule {
        MatchRule::Same => meme_intersection(blend_memes(a), blend_memes(b)).len() > 0,
        MatchRule::OnlyMeme(m) => blend_memes(a).contains(m) && blend_memes(b).contains(m),
    }
}

/// The first position of the unblocked stretch that ends just before
/// position `n`.
pub open spec fn run_start(ws: Seq<ShadowBlend>, n: int) -> int
    decreases n,
{
    if n <= 0 {
        0
    } else if ws[n - 1].blocked {
        n
    } else {
        run_start(ws, n - 1)
    }
}

/// The pairs `(i, n)` for `i` from `hi` down to `lo` whose blends match.
pub open spec fn pairs_down(ws: Seq<ShadowBlend>, rule: MatchRule, lo: int, hi: int, n: int) -> Seq<(usize, usize)>
    decreases hi - lo + 1,
{
    if hi < lo || hi < 0 {
        Seq::empty()
    } else {
        let here = if rule_holds(rule, ws[hi], ws[n]) {
            seq![(hi as usize, n as usize)]
        } else {
            Seq::empty()
        };
        here + pairs_down(ws, rule, lo, hi - 1, n)
    }
}

/// The matches found among the first `n` blends: each unblocked position is
/// paired with every earlier position of its unblocked stretch, nearest
/// first.
pub open spec fn couples(ws: Seq<ShadowBlend>, rule: MatchRule, n: int) -> Seq<(usize, usize)>
    decreases n,
{
    if n <= 0 {
        Seq::empty()
    } else if ws[n - 1].blocked {
        couples(ws, rule, n - 1)
    } else {
        couples(ws, rule, n - 1) + pairs_down(ws, rule, run_start(ws, n - 1), n - 2, n - 1)
    }
}

/// Whether the blends `a` and `b` match under `rule`.
fn holds(rule: &MatchRule, a: &ShadowBlend, b: &ShadowBlend) -> (r: bool)
    ensures
        r == rule_holds(*rule, *a, *b),
{
    match rule {
        MatchRule::Same => a.intersect_meme(b).len() > 0,
        MatchRule::OnlyMeme(m) => sees(&a.memes(), *m) && sees(&b.memes(), *m),
    }
}

/// Whether `memes` holds `m`.
fn sees(memes: &Vec<Meme>, m: Meme) -> (r: bool)
    ensures
        r == memes@.contains(m),
{
    let mut i: usize = 0;
    while i < memes.len()
        invariant
            i <= memes@.len(),
            forall|k: int| 0 <= k < i ==> memes@[k] != m,
        decreases memes@.len() - i,
    {
        if memes[i] == m {
            assert(memes@[i as int] == m);
            return true;
        }
        i = i + 1;
    }
    false
}

impl Matcher {
    /// Scan the wall left to right, starting a new stretch at every blocked
    /// position, and pair each unblocked position with every earlier position
    /// of its stretch (nearest first) whose blend matches under `rule`.
    pub fn match_condition(shadow_wall: &[ShadowBlend], rule: &MatchRule) -> (r: Vec<(usize, usize)>)
        ensures
            r@ == couples(shadow_wall@, *rule, shadow_wall@.len() as int),
    {
        let ghost ws = shadow_wall@;
        let mut couples_found: Vec<(usize, usize)> = Vec::new();
        let mut start: usize = 0;
        let mut idx: usize = 0;
        while idx < shadow_wall.len()
            invariant
                ws == shadow_wall@,
                idx <= ws.len(),
                start <= idx,
                start == run_start(ws, idx as int),
                couples_found@ == couples(ws, *rule, idx as int),
            decreases ws.len() - idx,
        {
            if shadow_wall[idx].blocked {
                start = idx + 1;
            } else {
                let mut i: usize = idx;
                while i > start
                    invariant
                        ws == shadow_wall@,
                        idx < ws.len(),
                        start <= i <= idx,
                        start == run_start(ws, idx as int),
                        couples(ws, *rule, idx as int + 1) == couples_found@ + pairs_down(
                            ws,
                            *rule,
                            start as int,
                            i - 1,
                            idx as int,
                        ),
                    decreases i,
                {
                    let ghost before = couples_found@;
                    if holds(rule, &shadow_wall[i - 1], &shadow_wall[idx]) {
                        couples_found.push((i - 1, idx));
                    }
                    assert(before + pairs_down(ws, *rule, start as int, i - 1, idx as int) =~= couples_found@
                        + pairs_down(ws, *rule, start as int, i - 2, idx as int));
                    i = i - 1;
                }
                assert(couples_found@ + pairs_down(ws, *rule, start as int, start - 1, idx as int)
                    =~= couples_found@);
            }
            idx = idx + 1;
        }
        couples_found
    }

    /// After casting shadows on a wall, if 2 shadows with the same type have
    /// no blocking shadow(s) in between, then there is a match
    pub fn match_same(shadow_wall: &[ShadowBlend]) -> (r: Vec<(usize, usize)>)
        ensures
            r@ == couples(shadow_wall@, MatchRule::Same, shadow_wall@.len() as int),
    {
        Self::match_condition(shadow_wall, &MatchRule::Same)
    }

    /// Match single type of block, for matching user chosen couple of blocks
    pub fn match_only_meme(shadow_wall: &[ShadowBlend], meme: Meme) -> (r: Vec<(usize, usize)>)
        ensures
            r@ == couples(shadow_wall@, MatchRule::OnlyMeme(meme), shadow_wall@.len() as int),
    {
        Self::match_condition(shadow_wall, &MatchRule::OnlyMeme(meme))
    }
}

} // verus!
