use vstd::prelude::*;

verus! {

/// Identifier of a meme (a tile kind) on the game map.
pub type Meme = usize;

/// The meme id that marks an empty block.
pub const NO_MEME: Meme = 0;

/// The nearest meme seen from a wall position, and where it lies on the track.
#[derive(Debug, Clone, Copy, PartialEq, Eq, Structural)]
pub struct ShadowTrace {
    pub idx: usize,
    pub meme: Meme,
}

/// What a wall position sees along its track: the nearest meme behind it and
/// the nearest ahead of it, unless the position itself is occupied.
#[derive(Debug)]
pub struct ShadowBlend {
    pub traces: [Option<ShadowTrace>; 2],
    pub blocked: bool,
}

/// Scanning positions `p`, `p - 1`, ... down to `lo`, the first that holds a
/// meme.
pub open spec fn scan_back(t: Seq<Meme>, p: int, lo: int) -> Option<int>
    decreases p - lo + 1,
{
    if p < lo || p < 0 || p >= t.len() {
        None
    } else if t[p] != NO_MEME {
        Some(p)
    } else {
        scan_back(t, p - 1, lo)
    }
}

/// Scanning positions `p`, `p + 1`, ... up to `hi`, the first that holds a
/// meme.
pub open spec fn scan_fwd(t: Seq<Meme>, p: int, hi: int) -> Option<int>
    decreases hi - p + 1,
{
    if p > hi || p < 0 || p >= t.len() {
        None
    } else if t[p] != NO_MEME {
        Some(p)
    } else {
        scan_fwd(t, p + 1, hi)
    }
}

pub open spec fn trace_of(t: Seq<Meme>, found: Option<int>) -> Option<ShadowTrace> {
    match found {
        Some(p) => Some(ShadowTrace { idx: p as usize, meme: t[p] }),
        None => None,
    }
}

/// The cast ranges are within the track around the wall.
pub open spec fn ranges_ok(len: int, wall_idx: int, cast_ranges: (Option<usize>, Option<usize>)) -> bool {
    &&& wall_idx < len
    &&& cast_ranges.0 is Some ==> cast_ranges.0->Some_0 <= wall_idx
    &&& cast_ranges.1 is Some ==> wall_idx + cast_ranges.1->Some_0 < len
}

/// How far back the wall looks: the given range, else the whole track.
pub open spec fn reach_back(wall_idx: int, cast_ranges: (Option<usize>, Option<usize>)) -> int {
    match cast_ranges.0 {
        Some(r) => r as int,
        None => wall_idx + 1,
    }
}

/// How far ahead the wall looks: the given range, else the whole track.
pub open spec fn reach_fwd(len: int, wall_idx: int, cast_ranges: (Option<usize>, Option<usize>)) -> int {
    match cast_ranges.1 {
        Some(r) => r as int,
        None => len - 1 - wall_idx,
    }
}

/// `b` is the blend cast onto position `wall_idx` of track `t`.
pub open spec fn is_blend(b: ShadowBlend, t: Seq<Meme>, wall_idx: int, cast_ranges: (Option<usize>, Option<usize>)) -> bool {
    if t[wall_idx] != NO_MEME {
        b.blocked && b.traces@ == seq![None::<ShadowTrace>, None]
    } else {
        &&& !b.blocked
        &&& b.traces@[0] == trace_of(t, scan_back(t, wall_idx - 1, wall_idx - reach_back(wall_idx, cast_ranges)))
        &&& b.traces@[1] == trace_of(t, scan_fwd(t, wall_idx + 1, wall_idx + reach_fwd(t.len() as int, wall_idx, cast_ranges)))
    }
}

/// The memes a blend sees, behind first.
pub open spec fn blend_memes(b: ShadowBlend) -> Seq<Meme> {
    if b.blocked {
        Seq::empty()
    } else {
        let back = match b.traces@[0] {
            Some(t) => seq![t.meme],
            None => Seq::empty(),
        };
        let fwd = match b.traces@[1] {
            Some(t) => seq![t.meme],
            None => Seq::empty(),
        };
        back + fwd
    }
}

/// The first index of `x` in `s`.
pub open spec fn first_index(s: Seq<Meme>, x: Meme) -> int
    decreases s.len(),
{
    if s.len() == 0 {
        0
    } else if s[0] == x {
        0
    } else {
        1 + first_index(s.drop_first(), x)
    }
}

/// The memes of `xs` that also occur in `ys`, each occurrence in `ys` used
/// once, in the order of `xs`.
pub open spec fn meme_intersection(xs: Seq<Meme>, ys: Seq<Meme>) -> Seq<Meme>
    decreases xs.len(),
{
    if xs.len() == 0 {
        Seq::empty()
    } else if ys.contains(xs[0]) {
        seq![xs[0]] + meme_intersection(xs.drop_first(), ys.remove(first_index(ys, xs[0])))
    } else {
        meme_intersection(xs.drop_first(), ys)
    }
}

proof fn lemma_first_index(s: Seq<Meme>, x: Meme)
    requires
        s.contains(x),
    ensures
        0 <= first_index(s, x) < s.len(),
        s[first_index(s, x)] == x,
        forall|k: int| 0 <= k < first_index(s, x) ==> s[k] != x,
    decreases s.len(),
{
    if s[0] != x {
        let w = choose|w: int| 0 <= w < s.len() && s[w] == x;
        assert(s.drop_first()[w - 1] == x);
        lemma_first_index(s.drop_first(), x);
        assert forall|k: int| 0 <= k < first_index(s, x) implies s[k] != x by {
            if k > 0 {
                assert(s[k] == s.drop_first()[k - 1]);
            }
        }
    }
}

/// The nearest meme among the `range` positions just behind `wall_idx`.
fn nearest_back(track: &[Meme], wall_idx: usize, range: usize) -> (r: Option<ShadowTrace>)
    requires
        wall_idx < track@.len(),
    ensures
        r == trace_of(track@, scan_back(track@, wall_idx - 1, wall_idx - range)),
{
    let ghost t = track@;
    let mut taken: usize = 0;
    while taken < range && taken < wall_idx
        invariant
            t == track@,
            wall_idx < t.len(),
            taken <= wall_idx,
            scan_back(t, wall_idx - 1, wall_idx - range) == scan_back(
                t,
                wall_idx - 1 - taken,
                wall_idx - range,
            ),
        decreases wall_idx - taken,
    {
        let pos = wall_idx - 1 - taken;
        if track[pos] != NO_MEME {
            return Some(ShadowTrace { idx: pos, meme: track[pos] });
        }
        taken = taken + 1;
    }
    None
}

/// The nearest meme among the `range` positions just ahead of `wall_idx`.
fn nearest_fwd(track: &[Meme], wall_idx: usize, range: usize) -> (r: Option<ShadowTrace>)
    requires
        wall_idx < track@.len(),
    ensures
        r == trace_of(track@, scan_fwd(track@, wall_idx + 1, wall_idx + range)),
{
    let ghost t = track@;
    let n = track.len();
    let ahead = n - wall_idx - 1;
    let mut taken: usize = 0;
    while taken < range && taken < ahead
        invariant
            t == track@,
            n == t.len(),
            wall_idx < t.len(),
            ahead == t.len() - wall_idx - 1,
            taken <= ahead,
            scan_fwd(t, wall_idx + 1, wall_idx + range) == scan_fwd(
                t,
                wall_idx + 1 + taken,
                wall_idx + range,
            ),
        decreases ahead - taken,
    {
        let pos = wall_idx + 1 + taken;
        if track[pos] != NO_MEME {
            return Some(ShadowTrace { idx: pos, meme: track[pos] });
        }
        taken = taken + 1;
    }
    None
}

/// The first position of `x` in `v`, or the length of `v` when it is absent.
fn position_of(v: &Vec<Meme>, x: Meme) -> (r: usize)
    ensures
        r <= v@.len(),
        r < v@.len() ==> v@[r as int] == x,
        forall|k: int| 0 <= k < r ==> v@[k] != x,
{
    let mut position: usize = 0;
    while position < v.len()
        invariant
            position <= v@.len(),
            forall|k: int| 0 <= k < position ==> v@[k] != x,
        decreases v@.len() - position,
    {
        if v[position] == x {
            return position;
        }
        position = position + 1;
    }
    position
}

impl ShadowBlend {
    /// Casting shadows onto a specific wall position. If the wall position
    /// already has something, the blend is blocked and nothing is looked for.
    pub fn from(track: &[Meme], wall_idx: usize, cast_ranges: (Option<usize>, Option<usize>)) -> (r: ShadowBlend)
        requires
            ranges_ok(track@.len() as int, wall_idx as int, cast_ranges),
        ensures
            is_blend(r, track@, wall_idx as int, cast_ranges),
    {
        if track[wall_idx] != NO_MEME {
            return ShadowBlend { traces: [None, None], blocked: true };
        }
        let ghost t = track@;
        let range_bwd: usize = match cast_ranges.0 {
            Some(r) => r,
            None => wall_idx + 1,
        };
        let range_fwd: usize = match cast_ranges.1 {
            Some(r) => r,
            None => track.len() - 1 - wall_idx,
        };
        let trace_bwd = nearest_back(track, wall_idx, range_bwd);
        let trace_fwd = nearest_fwd(track, wall_idx, range_fwd);
        ShadowBlend { traces: [trace_bwd, trace_fwd], blocked: false }
    }

    /// The blends cast onto position `wall_idx` of each track.
    pub fn pack_from(tracks: Vec<Vec<Meme>>, wall_idx: usize, cast_ranges: (Option<usize>, Option<usize>)) -> (r: Vec<ShadowBlend>)
        requires
            forall|i: int|
                0 <= i < tracks@.len() ==> ranges_ok(
                    (#[trigger] tracks@[i])@.len() as int,
                    wall_idx as int,
                    cast_ranges,
                ),
        ensures
            r@.len() == tracks@.len(),
            forall|i: int|
                0 <= i < tracks@.len() ==> is_blend(
                    #[trigger] r@[i],
                    tracks@[i]@,
                    wall_idx as int,
                    cast_ranges,
                ),
    {
        let mut r: Vec<ShadowBlend> = Vec::new();
        let mut i: usize = 0;
        while i < tracks.len()
            invariant
                forall|i: int|
                    0 <= i < tracks@.len() ==> ranges_ok(
                        (#[trigger] tracks@[i])@.len() as int,
                        wall_idx as int,
                        cast_ranges,
                    ),
                i <= tracks@.len(),
                r@.len() == i,
                forall|k: int|
                    0 <= k < i ==> is_blend(#[trigger] r@[k], tracks@[k]@, wall_idx as int, cast_ranges),
            decreases tracks@.len() - i,
        {
            let blend = ShadowBlend::from(tracks[i].as_slice(), wall_idx, cast_ranges);
            r.push(blend);
            i = i + 1;
        }
        r
    }

    /// The memes this blend sees, behind first; none when it is blocked.
    pub fn memes(&self) -> (r: Vec<Meme>)
        ensures
            r@ == blend_memes(*self),
    {
        let mut memes: Vec<Meme> = Vec::new();
        if !self.blocked {
            if let Some(t) = self.traces[0] {
                memes.push(t.meme);
            }
            if let Some(t) = self.traces[1] {
                memes.push(t.meme);
            }
        }
        assert(memes@ =~= blend_memes(*self));
        memes
    }

    /// The memes that both blends see, each sighting used once, in the order
    /// of this blend.
    pub fn intersect_meme(&self, other: &Self) -> (r: Vec<Meme>)
        ensures
            r@ == meme_intersection(blend_memes(*self), blend_memes(*other)),
    {
        let mut intersection: Vec<Meme> = Vec::new();
        let this_memes = self.memes();
        let mut other_memes = other.memes();
        let ghost xs = this_memes@;
        assert(xs.subrange(0, xs.len() as int) =~= xs);
        assert(intersection@ + meme_intersection(xs, other_memes@) =~= meme_intersection(xs, other_memes@));
        let mut i: usize = 0;
        while i < this_memes.len()
            invariant
                xs == this_memes@,
                xs == blend_memes(*self),
                i <= xs.len(),
                meme_intersection(xs, blend_memes(*other)) == intersection@ + meme_intersection(
                    xs.subrange(i as int, xs.len() as int),
                    other_memes@,
                ),
            decreases xs.len() - i,
        {
            let meme = this_memes[i];
            let ghost rest = xs.subrange(i as int, xs.len() as int);
            assert(rest.drop_first() =~= xs.subrange(i + 1, xs.len() as int));
            assert(rest[0] == meme);
            let position = position_of(&other_memes, meme);
            if position < other_memes.len() {
                proof {
                    assert(other_memes@.contains(meme));
                    lemma_first_index(other_memes@, meme);
                    if first_index(other_memes@, meme) < position {
                        assert(other_memes@[first_index(other_memes@, meme)] == meme);
                    }
                    if first_index(other_memes@, meme) > position {
                        assert(other_memes@[position as int] == meme);
                    }
                }
                intersection.push(meme);
                other_memes.remove(position);
                assert(intersection@ + meme_intersection(xs.subrange(i + 1, xs.len() as int), other_memes@)
                    =~= intersection@.drop_last() + (seq![meme] + meme_intersection(xs.subrange(i + 1, xs.len() as int), other_memes@)));
            } else {
                assert(!other_memes@.contains(meme));
            }
            i = i + 1;
        }
        assert(xs.subrange(xs.len() as int, xs.len() as int) =~= Seq::<Meme>::empty());
        assert(intersection@ + Seq::<Meme>::empty() =~= intersection@);
        intersection
    }
}

} // verus!
