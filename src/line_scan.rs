use vstd::prelude::*;

use crate::matcher::MatchRule;
use crate::shadow::{scan_back, scan_fwd, Meme, NO_MEME};

verus! {

/// A meme seen from a position of a track, and where it lies.
#[derive(Debug, Clone, Copy, PartialEq, Eq, Structural)]
pub struct ShadowTrace {
    pub pos_on_track: usize,
    pub meme: Meme,
}

/// The meme seen from `shadow` looking towards `look_up` (both included):
/// the nearest position in that stretch that holds a meme.
pub open spec fn sighting(t: Seq<Meme>, shadow: int, look_up: int) -> Option<ShadowTrace> {
    let found = if shadow <= look_up {
        scan_fwd(t, shadow, look_up)
    } else {
        scan_back(t, shadow, look_up)
    };
    match found {
        Some(p) => Some(ShadowTrace { pos_on_track: p as usize, meme: t[p] }),
        None => None,
    }
}

/// The present traces of a wall with their positions, in order.
pub open spec fn present(ws: Seq<Option<ShadowTrace>>) -> Seq<(usize, ShadowTrace)>
    decreases ws.len(),
{
    if ws.len() == 0 {
        Seq::empty()
    } else {
        let rest = present(ws.drop_last());
        match ws.last() {
            Some(t) => rest.push(((ws.len() - 1) as usize, t)),
            None => rest,
        }
    }
}

/// Two neighbouring traces match under `rule`.
pub open spec fn window_holds(rule: MatchRule, a: ShadowTrace, b: ShadowTrace) -> bool {
    match rule {
        MatchRule::Same => a.meme == b.meme,
        MatchRule::OnlyMeme(m) => a.meme == m && a.meme == b.meme,
    }
}

/// The matches among the first `n` present traces: each pair of neighbours
/// that matches, in order.
pub open spec fn window_pairs(ps: Seq<(usize, ShadowTrace)>, rule: MatchRule, n: int) -> Seq<(usize, usize)>
    decreases n,
{
    if n < 2 {
        Seq::empty()
    } else {
        let here = if window_holds(rule, ps[n - 2].1, ps[n - 1].1) {
            seq![(ps[n - 2].0, ps[n - 1].0)]
        } else {
            Seq::empty()
        };
        window_pairs(ps, rule, n - 1) + here
    }
}

impl ShadowTrace {
    /// Casting shadow onto a specific position. If shadow position already
    /// has something then return it and not bother looking further.
    pub fn trace(on_track: &[Meme], shadow_position: usize, look_up_to_postion: usize) -> (r: Option<ShadowTrace>)
        requires
            shadow_position < on_track@.len(),
            look_up_to_postion < on_track@.len(),
        ensures
            r == sighting(on_track@, shadow_position as int, look_up_to_postion as int),
    {
        let ghost t = on_track@;
        if shadow_position <= look_up_to_postion {
            let mut pos: usize = shadow_position;
            while pos <= look_up_to_postion
                invariant
                    t == on_track@,
                    look_up_to_postion < t.len(),
                    shadow_position <= pos <= look_up_to_postion + 1,
                    scan_fwd(t, shadow_position as int, look_up_to_postion as int) == scan_fwd(
                        t,
                        pos as int,
                        look_up_to_postion as int,
                    ),
                decreases look_up_to_postion + 1 - pos,
            {
                if on_track[pos] != NO_MEME {
                    return Some(ShadowTrace { pos_on_track: pos, meme: on_track[pos] });
                }
                pos = pos + 1;
            }
            None
        } else {
            let mut pos: usize = shadow_position;
            while pos >= look_up_to_postion
                invariant
                    t == on_track@,
                    shadow_position < t.len(),
                    look_up_to_postion < shadow_position,
                    look_up_to_postion <= pos <= shadow_position,
                    scan_back(t, shadow_position as int, look_up_to_postion as int) == scan_back(
                        t,
                        pos as int,
                        look_up_to_postion as int,
                    ),
                decreases pos,
            {
                if on_track[pos] != NO_MEME {
                    return Some(ShadowTrace { pos_on_track: pos, meme: on_track[pos] });
                }
                if pos == look_up_to_postion {
                    assert(scan_back(t, pos - 1, look_up_to_postion as int) is None);
                    assert(scan_back(t, pos as int, look_up_to_postion as int) is None);
                    assert(sighting(t, shadow_position as int, look_up_to_postion as int) is None);
                    return None;
                }
                pos = pos - 1;
            }
            None
        }
    }

    /// The trace of each track, seen from the same positions.
    pub fn trace_multi(tracks: &[Vec<Meme>], shadow_position: usize, look_up_to_postion: usize) -> (r: Vec<Option<ShadowTrace>>)
        requires
            forall|i: int|
                0 <= i < tracks@.len() ==> shadow_position < (#[trigger] tracks@[i])@.len()
                    && look_up_to_postion < tracks@[i]@.len(),
        ensures
            r@.len() == tracks@.len(),
            forall|i: int|
                0 <= i < tracks@.len() ==> #[trigger] r@[i] == sighting(
                    tracks@[i]@,
                    shadow_position as int,
                    look_up_to_postion as int,
                ),
    {
        let mut r: Vec<Option<ShadowTrace>> = Vec::new();
        let mut i: usize = 0;
        while i < tracks.len()
            invariant
                forall|i: int|
                    0 <= i < tracks@.len() ==> shadow_position < (#[trigger] tracks@[i])@.len()
                        && look_up_to_postion < tracks@[i]@.len(),
                i <= tracks@.len(),
                r@.len() == i,
                forall|k: int|
                    0 <= k < i ==> #[trigger] r@[k] == sighting(
                        tracks@[k]@,
                        shadow_position as int,
                        look_up_to_postion as int,
                    ),
            decreases tracks@.len() - i,
        {
            r.push(ShadowTrace::trace(tracks[i].as_slice(), shadow_position, look_up_to_postion));
            i = i + 1;
        }
        r
    }
}

/// Matches memes seen along a wall, between neighbouring traces.
pub struct Matcher {}

impl Matcher {
    /// Leave out the gaps of the wall, then report each pair of neighbouring
    /// traces that matches under `rule`.
    pub fn match_condition(shadow_wall: &[Option<ShadowTrace>], rule: &MatchRule) -> (r: Vec<(usize, usize)>)
        ensures
            r@ == window_pairs(present(shadow_wall@), *rule, present(shadow_wall@).len() as int),
    {
        let ghost ws = shadow_wall@;
        let mut ungap: Vec<(usize, ShadowTrace)> = Vec::new();
        let mut idx: usize = 0;
        while idx < shadow_wall.len()
            invariant
                ws == shadow_wall@,
                idx <= ws.len(),
                ungap@ == present(ws.subrange(0, idx as int)),
            decreases ws.len() - idx,
        {
            assert(ws.subrange(0, idx + 1).drop_last() =~= ws.subrange(0, idx as int));
            if let Some(shadow) = shadow_wall[idx] {
                ungap.push((idx, shadow));
            }
            idx = idx + 1;
        }
        assert(ws.subrange(0, ws.len() as int) =~= ws);
        let ghost ps = ungap@;
        let mut couples: Vec<(usize, usize)> = Vec::new();
        let mut k: usize = 1;
        while k < ungap.len()
            invariant
                ps == ungap@,
                1 <= k,
                k <= ps.len() || k == 1,
                couples@ == window_pairs(ps, *rule, k as int),
            decreases ps.len() - k,
        {
            let (i0, a) = ungap[k - 1];
            let (i1, b) = ungap[k];
            let hit = match rule {
                MatchRule::Same => a.meme == b.meme,
                MatchRule::OnlyMeme(m) => a.meme == *m && a.meme == b.meme,
            };
            if hit {
                couples.push((i0, i1));
            }
            assert(couples@ =~= window_pairs(ps, *rule, k + 1));
            k = k + 1;
        }
        proof {
            if ps.len() <= 1 {
                assert(window_pairs(ps, *rule, 1) =~= Seq::<(usize, usize)>::empty());
                assert(window_pairs(ps, *rule, ps.len() as int) =~= Seq::<(usize, usize)>::empty());
            }
            assert(ps == present(shadow_wall@));
            assert(couples@ == window_pairs(ps, *rule, k as int));
            if ps.len() > 0 {
                assert(k == ps.len());
            }
            assert(couples@ == window_pairs(ps, *rule, ps.len() as int));
        }
        couples
    }

    /// After casting shadows on a wall, if 2 shadows with the same type have
    /// no blocking shadow(s) in between, then there is a match
    pub fn match_same(shadow_wall: &[Option<ShadowTrace>]) -> (r: Vec<(usize, usize)>)
        ensures
            r@ == window_pairs(present(shadow_wall@), MatchRule::Same, present(shadow_wall@).len() as int),
    {
        Matcher::match_condition(shadow_wall, &MatchRule::Same)
    }

    /// Match single type of block, for matching user chosen couple of blocks
    pub fn match_only_meme(shadow_wall: &[Option<ShadowTrace>], meme: Meme) -> (r: Vec<(usize, usize)>)
        ensures
            r@ == window_pairs(
                present(shadow_wall@),
                MatchRule::OnlyMeme(meme),
                present(shadow_wall@).len() as int,
            ),
    {
        Matcher::match_condition(shadow_wall, &MatchRule::OnlyMeme(meme))
    }
}

} // verus!
