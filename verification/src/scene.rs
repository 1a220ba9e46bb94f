//! What the CPU frontend draws besides the bodies and the status panel: the
//! paper background and the trajectory trails.

use vstd::prelude::*;
use crate::raster::{
    draw_line, frame_ok, in_frame, lemma_painted_ext, lemma_painted_none, lemma_painted_union, line_fits,
    line_pixels, painted,
};

verus! {

/// The cream colour of the background.
pub const BACKGROUND: u32 = 0xF5F1E7;

/// The colour of the trails.
pub const TRAIL_COLOR: u32 = 0x915E4E;

/// The colour of the bodies.
pub const BODY_COLOR: u32 = 0x2E6E52;

/// Sets every pixel of the buffer to `color`.
pub fn fill(buf: &mut [u32], color: u32)
    ensures
        final(buf)@ == Seq::new(old(buf)@.len(), |k: int| color),
{
    let n = buf.len();
    let mut k: usize = 0;
    while k < n
        invariant
            n == buf@.len(),
            k <= n,
            forall|i: int| 0 <= i < k ==> buf@[i] == color,
        decreases n - k,
    {
        buf[k] = color;
        k = k + 1;
    }
    assert(buf@ =~= Seq::new(n as nat, |k: int| color));
}

/// The latest snapshot before snapshot `s` that has a position for body `b`.
pub open spec fn last_before(hist: Seq<Seq<(i64, i64)>>, b: int, s: int) -> Option<int>
    decreases s,
{
    if s <= 0 {
        None
    } else if 0 <= b < hist[s - 1].len() {
        Some(s - 1)
    } else {
        last_before(hist, b, s - 1)
    }
}

/// The position of body `b` in the latest snapshot before `s` that has one.
pub open spec fn latest(hist: Seq<Seq<(i64, i64)>>, b: int, s: int) -> Option<(i64, i64)> {
    match last_before(hist, b, s) {
        Some(t) => Some(hist[t][b]),
        None => None,
    }
}

/// The pixels of the trail segment that ends at body `b`'s position in
/// snapshot `s`: the line from its previous known position, if any.
pub open spec fn trail_segment(hist: Seq<Seq<(i64, i64)>>, s: int, b: int) -> Seq<(int, int)> {
    match latest(hist, b, s) {
        Some(p) => line_pixels(p.0 as int, p.1 as int, hist[s][b].0 as int, hist[s][b].1 as int),
        None => Seq::empty(),
    }
}

/// The pixels of the segments ending at a snapshot before `s`, or at a body
/// before `b` in snapshot `s`.
pub open spec fn trails_before(hist: Seq<Seq<(i64, i64)>>, s: int, b: int) -> spec_fn(int, int) -> bool {
    |x: int, y: int|
        exists|s2: int, b2: int|
            0 <= s2 < hist.len() && 0 <= b2 < hist[s2].len() && (s2 < s || (s2 == s && b2 < b))
                && #[trigger] trail_segment(hist, s2, b2).contains((x, y))
}

/// The pixels of all trails: each body's successive positions, snapshot
/// after snapshot, joined by lines.
pub open spec fn trails_shape(hist: Seq<Seq<(i64, i64)>>) -> spec_fn(int, int) -> bool {
    trails_before(hist, hist.len() as int, 0)
}

/// Every segment of the trails can be drawn.
pub open spec fn trails_fit(hist: Seq<Seq<(i64, i64)>>) -> bool {
    forall|s: int, b: int|
        0 <= s < hist.len() && 0 <= b < hist[s].len() && #[trigger] latest(hist, b, s) is Some ==> {
            let p = latest(hist, b, s)->0;
            line_fits(p.0 as int, p.1 as int, hist[s][b].0 as int, hist[s][b].1 as int)
        }
}

/// Body `b` has a position in snapshots `t` and `s` (`t < s`) and in none
/// of the snapshots between them: its trail joins these two positions.
pub open spec fn consecutive(hist: Seq<Seq<(i64, i64)>>, b: int, t: int, s: int) -> bool {
    &&& 0 <= t < s < hist.len()
    &&& 0 <= b < hist[t].len()
    &&& b < hist[s].len()
    &&& forall|u: int| t < u < s ==> b >= #[trigger] hist[u].len()
}

/// `last_before` finds the nearest earlier snapshot holding the body, and
/// finds none only when no earlier snapshot holds it.
proof fn lemma_last_before_nearest(hist: Seq<Seq<(i64, i64)>>, b: int, s: int)
    requires
        0 <= b,
        0 <= s <= hist.len(),
    ensures
        match last_before(hist, b, s) {
            Some(t) => 0 <= t < s && b < hist[t].len() && forall|u: int| t < u < s ==> b >= #[trigger] hist[u].len(),
            None => forall|u: int| 0 <= u < s ==> b >= #[trigger] hist[u].len(),
        },
    decreases s,
{
    if s > 0 {
        lemma_last_before_nearest(hist, b, s - 1);
    }
}

/// A body's positions in consecutive snapshots holding it are joined.
proof fn lemma_consecutive_last_before(hist: Seq<Seq<(i64, i64)>>, b: int, t: int, s: int)
    requires
        consecutive(hist, b, t, s),
    ensures
        last_before(hist, b, s) == Some(t),
{
    lemma_last_before_nearest(hist, b, s);
    match last_before(hist, b, s) {
        Some(t2) => {
            if t2 < t {
                assert(b >= hist[t].len());
            } else if t < t2 {
                assert(b >= hist[t2].len());
            }
        },
        None => {
            assert(b >= hist[t].len());
        },
    }
}

/// The trails are exactly the lines joining each body's position in a
/// snapshot to its position in the next snapshot that holds it: a pixel is
/// on the trails if and only if it is on one of these lines.
pub proof fn lemma_trails_join_successive_positions(hist: Seq<Seq<(i64, i64)>>, x: int, y: int)
    ensures
        trails_shape(hist)(x, y) <==> exists|b: int, t: int, s: int|
            #[trigger] consecutive(hist, b, t, s) && line_pixels(
                hist[t][b].0 as int,
                hist[t][b].1 as int,
                hist[s][b].0 as int,
                hist[s][b].1 as int,
            ).contains((x, y)),
{
    if trails_shape(hist)(x, y) {
        let (s, b) = choose|s2: int, b2: int|
            0 <= s2 < hist.len() && 0 <= b2 < hist[s2].len() && (s2 < hist.len() || (s2 == hist.len() && b2 < 0))
                && #[trigger] trail_segment(hist, s2, b2).contains((x, y));
        lemma_last_before_nearest(hist, b, s);
        let t = last_before(hist, b, s)->0;
        assert(consecutive(hist, b, t, s));
    }
    if exists|b: int, t: int, s: int|
        #[trigger] consecutive(hist, b, t, s) && line_pixels(
            hist[t][b].0 as int,
            hist[t][b].1 as int,
            hist[s][b].0 as int,
            hist[s][b].1 as int,
        ).contains((x, y)) {
        let (b, t, s) = choose|b: int, t: int, s: int|
            #[trigger] consecutive(hist, b, t, s) && line_pixels(
                hist[t][b].0 as int,
                hist[t][b].1 as int,
                hist[s][b].0 as int,
                hist[s][b].1 as int,
            ).contains((x, y));
        lemma_consecutive_last_before(hist, b, t, s);
        assert(trail_segment(hist, s, b).contains((x, y)));
    }
}

/// Draws the trails of the history `hist` (one snapshot of screen positions
/// per step, body `b` at index `b`) for `n` bodies: each body's position in
/// a snapshot is joined by a line to its position in the latest earlier
/// snapshot that has one.
pub fn draw_trails(buf: &mut [u32], ww: usize, wh: usize, hist: &Vec<Vec<(i64, i64)>>, n: usize, color: u32)
    requires
        frame_ok(old(buf)@.len(), ww, wh),
        forall|s: int| 0 <= s < hist@.len() ==> (#[trigger] hist@[s])@.len() <= n,
        trails_fit(hist@.map_values(|v: Vec<(i64, i64)>| v@)),
    ensures
        final(buf)@ == painted(old(buf)@, ww, wh, trails_shape(hist@.map_values(|v: Vec<(i64, i64)>| v@)), color),
{
    let ghost h = hist@.map_values(|v: Vec<(i64, i64)>| v@);
    let ghost start = buf@;
    let mut prev: Vec<Option<(i64, i64)>> = Vec::new();
    let mut k: usize = 0;
    while k < n
        invariant
            k <= n,
            prev@.len() == k,
            forall|i: int| 0 <= i < k ==> prev@[i] is None,
        decreases n - k,
    {
        prev.push(None);
        k = k + 1;
    }
    proof {
        lemma_painted_none(start, ww, wh, color);
        lemma_painted_ext(start, ww, wh, |x: int, y: int| false, trails_before(h, 0, 0), color);
    }
    let m = hist.len();
    let mut s: usize = 0;
    while s < m
        invariant
            m == hist@.len(),
            h == hist@.map_values(|v: Vec<(i64, i64)>| v@),
            h.len() == m,
            frame_ok(start.len(), ww, wh),
            forall|t: int| 0 <= t < hist@.len() ==> (#[trigger] hist@[t])@.len() <= n,
            trails_fit(h),
            s <= m,
            prev@.len() == n,
            forall|i: int| 0 <= i < n ==> #[trigger] prev@[i] == latest(h, i, s as int),
            buf@ == painted(start, ww, wh, trails_before(h, s as int, 0), color),
        decreases m - s,
    {
        let snap = &hist[s];
        let len = snap.len();
        assert(h[s as int] == snap@);
        let mut b: usize = 0;
        while b < len
            invariant
                m == hist@.len(),
                h == hist@.map_values(|v: Vec<(i64, i64)>| v@),
                h.len() == m,
                frame_ok(start.len(), ww, wh),
                trails_fit(h),
                s < m,
                snap@ == h[s as int],
                len == snap@.len(),
                len <= n,
                b <= len,
                prev@.len() == n,
                forall|i: int| 0 <= i < n ==> #[trigger] prev@[i] == latest(h, i, if i < b { s + 1 } else { s as int }),
                buf@ == painted(start, ww, wh, trails_before(h, s as int, b as int), color),
            decreases len - b,
        {
            let p = snap[b];
            let ghost before = trails_before(h, s as int, b as int);
            let ghost after = trails_before(h, s as int, b + 1);
            let ghost seg = trail_segment(h, s as int, b as int);
            assert(prev@[b as int] == latest(h, b as int, s as int));
            match prev[b] {
                Some(q) => {
                    assert(line_fits(q.0 as int, q.1 as int, p.0 as int, p.1 as int));
                    draw_line(buf, ww, wh, q.0, q.1, p.0, p.1, color);
                    proof {
                        lemma_painted_union(start, ww, wh, before, |x: int, y: int| seg.contains((x, y)), color);
                    }
                },
                None => {
                    proof {
                        assert(seg == Seq::<(int, int)>::empty());
                    }
                },
            }
            proof {
                assert forall|x: int, y: int| in_frame(ww, wh, x, y) implies (before(x, y) || seg.contains((x, y)))
                    == after(x, y) by {
                    if seg.contains((x, y)) {
                        assert(trail_segment(h, s as int, b as int).contains((x, y)));
                    }
                    if after(x, y) && !before(x, y) {
                        let (s2, b2) = choose|s2: int, b2: int|
                            0 <= s2 < h.len() && 0 <= b2 < h[s2].len() && (s2 < s || (s2 == s && b2 < b + 1))
                                && #[trigger] trail_segment(h, s2, b2).contains((x, y));
                        assert(s2 == s && b2 == b);
                    }
                }
                lemma_painted_ext(start, ww, wh, |x: int, y: int| before(x, y) || seg.contains((x, y)), after, color);
                if prev@[b as int] is None {
                    lemma_painted_ext(start, ww, wh, before, after, color);
                }
            }
            prev.set(b, Some(p));
            b = b + 1;
        }
        proof {
            assert forall|x: int, y: int| in_frame(ww, wh, x, y) implies trails_before(h, s as int, len as int)(x, y)
                == trails_before(h, s + 1, 0)(x, y) by {
                if trails_before(h, s + 1, 0)(x, y) {
                    let (s2, b2) = choose|s2: int, b2: int|
                        0 <= s2 < h.len() && 0 <= b2 < h[s2].len() && (s2 < s + 1 || (s2 == s + 1 && b2 < 0))
                            && #[trigger] trail_segment(h, s2, b2).contains((x, y));
                    assert(trail_segment(h, s2, b2).contains((x, y)));
                }
            }
            lemma_painted_ext(start, ww, wh, trails_before(h, s as int, len as int), trails_before(h, s + 1, 0), color);
            assert forall|i: int| 0 <= i < n implies #[trigger] prev@[i] == latest(h, i, s + 1) by {
                if i >= len {
                    assert(last_before(h, i, s + 1) == last_before(h, i, s as int));
                }
            }
        }
        s = s + 1;
    }
}

/// Trail points the sprite-based frontend shows per body.
pub const TRAIL_LEN: usize = 160;

/// Snapshots between two consecutive trail points of the sprite-based
/// frontend.
pub const TRAIL_STRIDE: usize = 4;

/// What trail sprite number `slot` shows, for a history of `snap_len`
/// snapshots: body `slot / TRAIL_LEN`, at its trail point
/// `slot % TRAIL_LEN` counted back from the newest snapshot in steps of
/// `TRAIL_STRIDE` snapshots (the oldest snapshot when the history is too
/// short). Returns the body's index and the snapshot's index.
pub fn trail_slot(slot: usize, snap_len: usize) -> (r: (usize, usize))
    ensures
        r.0 == slot / TRAIL_LEN,
        r.1 == (if snap_len - 1 - (slot % TRAIL_LEN) * TRAIL_STRIDE > 0 {
            snap_len - 1 - (slot % TRAIL_LEN) * TRAIL_STRIDE
        } else {
            0
        }),
{
    let body = slot / TRAIL_LEN;
    let point = slot % TRAIL_LEN;
    let newest = if snap_len > 0 { snap_len - 1 } else { 0 };
    let back = point * TRAIL_STRIDE;
    let k = if newest > back { newest - back } else { 0 };
    (body, k)
}

} // verus!
