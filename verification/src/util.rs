//! The nearest point of a segment, and of a path of segments, to a point.

use crate::scalar::Scalar;
use crate::vector::{difference, length_squared, squared_norm, vec_sub};
use glam::DVec2;
use vstd::prelude::*;

verus! {

/// The two pieces of arithmetic in the projection of a point onto a segment
/// that starts at `p0` and runs along `seg`.
pub trait Projection {
    /// `offset.dot(seg) / seg_len_sq`: how far along the segment the foot of
    /// the perpendicular from `p0 + offset` falls, 0 at the start and 1 at the
    /// end.
    fn parameter(&self, offset: DVec2, seg: DVec2, seg_len_sq: Scalar) -> Scalar;

    /// `p0 + seg * t`.
    fn interpolate(&self, p0: DVec2, seg: DVec2, t: Scalar) -> DVec2;
}

/// The segment from `p0` to `p1` has no length.
pub open spec fn degenerate(p0: DVec2, p1: DVec2) -> bool {
    squared_norm(difference(p1, p0)).zero()
}

/// `c` is the point at the parameter `t` of the segment that starts at `p0`
/// and runs along `seg`, `t` being brought into `[0, 1]` before `g`
/// interpolates with it.
pub open spec fn at_parameter<G: Projection>(
    g: &G,
    p0: DVec2,
    seg: DVec2,
    t: Scalar,
    c: DVec2,
) -> bool {
    call_ensures(G::interpolate, (g, p0, seg, t.spec_clamp_unit()), c)
}

/// `c` is a projection of `point` onto the segment that starts at `p0`, runs
/// along `seg` and has `seg_len_sq` for the square of its length: the point
/// of the segment at a parameter that `g` computed for `point`.
pub open spec fn projected<G: Projection>(
    g: &G,
    point: DVec2,
    p0: DVec2,
    seg: DVec2,
    seg_len_sq: Scalar,
    c: DVec2,
) -> bool {
    exists|t: Scalar| #[trigger]
        call_ensures(G::parameter, (g, difference(point, p0), seg, seg_len_sq), t) && at_parameter(
            g,
            p0,
            seg,
            t,
            c,
        )
}

/// `c` is a projection of `point` onto the segment from `p0` to `p1`. The
/// square of the segment's length is handed to `g` as glam gave it: as the
/// number it is, or as some NaN where it is none.
pub open spec fn on_segment<G: Projection>(
    g: &G,
    point: DVec2,
    p0: DVec2,
    p1: DVec2,
    c: DVec2,
) -> bool {
    let seg = difference(p1, p0);
    exists|seg_len_sq: Scalar| #[trigger]
        seg_len_sq.alike(squared_norm(seg)) && projected(g, point, p0, seg, seg_len_sq, c)
}

/// `a` is strictly nearer to `point` than `b`.
pub open spec fn closer(point: DVec2, a: DVec2, b: DVec2) -> bool {
    squared_norm(difference(point, a)).spec_lt(squared_norm(difference(point, b)))
}

/// One segment more: `best` is what the nearest point becomes, from `prev`,
/// once the segment from `p0` to `p1` has been looked at. A segment without
/// length changes nothing; another one replaces `prev` by its projection
/// where that is strictly nearer.
pub open spec fn segment_step<G: Projection>(
    g: &G,
    point: DVec2,
    p0: DVec2,
    p1: DVec2,
    prev: DVec2,
    best: DVec2,
) -> bool {
    if degenerate(p0, p1) {
        best == prev
    } else {
        exists|c: DVec2| #[trigger]
            on_segment(g, point, p0, p1, c) && best == (if closer(point, c, prev) {
                c
            } else {
                prev
            })
    }
}

/// `bests` is the course of the search along `path`: `bests[k]` is the
/// nearest point to `point` among the first vertex of `path` and the
/// projections onto its first `k` segments, the earliest of them where several
/// are equally near.
pub open spec fn search_trace<G: Projection>(
    g: &G,
    point: DVec2,
    path: Seq<DVec2>,
    bests: Seq<DVec2>,
) -> bool {
    &&& 0 < bests.len() <= path.len()
    &&& bests[0] == path[0]
    &&& forall|k: int|
        1 <= k < bests.len() ==> segment_step(
            g,
            point,
            path[k - 1],
            path[k],
            bests[k - 1],
            #[trigger] bests[k],
        )
}

/// `best` is the nearest point to `point` on `path`: where a search along
/// the whole of `path` ends.
pub open spec fn nearest_on_path<G: Projection>(
    g: &G,
    point: DVec2,
    path: Seq<DVec2>,
    best: DVec2,
) -> bool {
    exists|bests: Seq<DVec2>| #[trigger]
        search_trace(g, point, path, bests) && bests.len() == path.len() && bests.last() == best
}

/// The nearest point to `point` on the segment from `line[0]` to `line[1]`.
/// A segment without length is its one point.
pub fn nearest_point_on_line_segment<G: Projection>(point: DVec2, line: [DVec2; 2], g: &G) -> (r:
    DVec2)
    ensures
        degenerate(line[0], line[1]) ==> r == line[0],
        !degenerate(line[0], line[1]) ==> on_segment(g, point, line[0], line[1], r),
{
    let p0 = line[0];
    let p1 = line[1];
    let seg = vec_sub(p1, p0);
    let seg_len_sq = length_squared(seg);
    if seg_len_sq.is_zero() {
        return p0;
    }
    let raw = g.parameter(vec_sub(point, p0), seg, seg_len_sq);
    let r = g.interpolate(p0, seg, raw.clamp_unit());
    proof {
        assert(at_parameter(g, p0, seg, raw, r));
        assert(projected(g, point, p0, seg, seg_len_sq, r));
        assert(seg_len_sq.alike(squared_norm(seg)));
    }
    r
}

/// The nearest point to `point` on the path through `path`, a path of one
/// vertex being that vertex.
pub fn nearest_point_on_path<G: Projection>(point: DVec2, path: &[DVec2], g: &G) -> (r: DVec2)
    requires
        path.len() > 0,
    ensures
        nearest_on_path(g, point, path@, r),
{
    let mut nearest_point = path[0];
    let mut min_dist_sq = length_squared(vec_sub(point, nearest_point));
    let ghost mut bests: Seq<DVec2> = seq![nearest_point];
    let mut i: usize = 1;
    while i < path.len()
        invariant
            1 <= i <= path.len(),
            min_dist_sq.alike(squared_norm(difference(point, nearest_point))),
            bests.len() == i,
            bests.last() == nearest_point,
            search_trace(g, point, path@, bests),
        decreases path.len() - i,
    {
        let ghost prev = nearest_point;
        let p0 = path[i - 1];
        let p1 = path[i];
        let seg = vec_sub(p1, p0);
        let seg_len_sq = length_squared(seg);
        if !seg_len_sq.is_zero() {
            let raw = g.parameter(vec_sub(point, p0), seg, seg_len_sq);
            let proj = g.interpolate(p0, seg, raw.clamp_unit());
            let dist_sq = length_squared(vec_sub(point, proj));
            if dist_sq.lt(min_dist_sq) {
                min_dist_sq = dist_sq;
                nearest_point = proj;
            }
            proof {
                assert(at_parameter(g, p0, seg, raw, proj));
                assert(projected(g, point, p0, seg, seg_len_sq, proj));
                assert(seg_len_sq.alike(squared_norm(seg)));
                assert(on_segment(g, point, p0, p1, proj));
            }
        }
        assert(segment_step(g, point, path@[i - 1], path@[i as int], prev, nearest_point));
        proof {
            bests = bests.push(nearest_point);
        }
        i += 1;
    }
    nearest_point
}

/// A projection onto a segment lies on the segment: it is the point at a
/// parameter that is no less than zero and no more than one, unless the
/// arithmetic gave no number for it.
pub proof fn lemma_projection_lies_on_segment<G: Projection>(
    g: &G,
    point: DVec2,
    p0: DVec2,
    p1: DVec2,
    c: DVec2,
)
    requires
        on_segment(g, point, p0, p1, c),
    ensures
        exists|t: Scalar| #[trigger]
            call_ensures(G::interpolate, (g, p0, difference(p1, p0), t), c) && (t.nan() || ((Scalar {
                bits: 0,
            }).spec_le(t) && t.spec_le(Scalar { bits: crate::scalar::ONE_BITS }))),
{
    let seg = difference(p1, p0);
    let seg_len_sq = choose|seg_len_sq: Scalar| #[trigger]
        seg_len_sq.alike(squared_norm(seg)) && projected(g, point, p0, seg, seg_len_sq, c);
    let t = choose|t: Scalar| #[trigger]
        call_ensures(G::parameter, (g, difference(point, p0), seg, seg_len_sq), t) && at_parameter(
            g,
            p0,
            seg,
            t,
            c,
        );
    crate::scalar::lemma_clamp_unit_range(t);
    assert(call_ensures(G::interpolate, (g, p0, seg, t.spec_clamp_unit()), c));
}

/// Along a search, the nearest point so far is the first vertex of the path or
/// strictly nearer than that vertex.
pub proof fn lemma_trace_not_farther_than_first<G: Projection>(
    g: &G,
    point: DVec2,
    path: Seq<DVec2>,
    bests: Seq<DVec2>,
    k: int,
)
    requires
        search_trace(g, point, path, bests),
        0 <= k < bests.len(),
    ensures
        bests[k] == path[0] || closer(point, bests[k], path[0]),
    decreases k,
{
    if k > 0 {
        lemma_trace_not_farther_than_first(g, point, path, bests, k - 1);
        assert(segment_step(g, point, path[k - 1], path[k], bests[k - 1], bests[k]));
    }
}

/// Along a search, the nearest point so far is the first vertex of the path or
/// a projection onto one of the segments looked at, one that has a length.
pub proof fn lemma_trace_is_on_path<G: Projection>(
    g: &G,
    point: DVec2,
    path: Seq<DVec2>,
    bests: Seq<DVec2>,
    k: int,
)
    requires
        search_trace(g, point, path, bests),
        0 <= k < bests.len(),
    ensures
        bests[k] == path[0] || exists|j: int|
            1 <= j <= k && !degenerate(path[j - 1], path[j]) && #[trigger] on_segment(
                g,
                point,
                path[j - 1],
                path[j],
                bests[k],
            ),
    decreases k,
{
    if k > 0 {
        lemma_trace_is_on_path(g, point, path, bests, k - 1);
        assert(segment_step(g, point, path[k - 1], path[k], bests[k - 1], bests[k]));
        if bests[k] != bests[k - 1] {
            assert(on_segment(g, point, path[k - 1], path[k], bests[k]));
        }
    }
}

/// The nearest point of a path is its first vertex or strictly nearer to the
/// point than that vertex, and it is that vertex or a projection onto one of
/// the path's segments that has a length.
pub proof fn lemma_nearest_on_path<G: Projection>(
    g: &G,
    point: DVec2,
    path: Seq<DVec2>,
    best: DVec2,
)
    requires
        nearest_on_path(g, point, path, best),
    ensures
        best == path[0] || closer(point, best, path[0]),
        best == path[0] || exists|j: int|
            1 <= j < path.len() && !degenerate(path[j - 1], path[j]) && #[trigger] on_segment(
                g,
                point,
                path[j - 1],
                path[j],
                best,
            ),
{
    let bests = choose|bests: Seq<DVec2>| #[trigger]
        search_trace(g, point, path, bests) && bests.len() == path.len() && bests.last() == best;
    lemma_trace_not_farther_than_first(g, point, path, bests, path.len() - 1);
    lemma_trace_is_on_path(g, point, path, bests, path.len() - 1);
}

/// A path whose segments all lack length has its first vertex as nearest
/// point: such segments are passed over.
pub proof fn lemma_nearest_of_degenerate_path<G: Projection>(
    g: &G,
    point: DVec2,
    path: Seq<DVec2>,
    best: DVec2,
)
    requires
        nearest_on_path(g, point, path, best),
        forall|j: int| 1 <= j < path.len() ==> degenerate(#[trigger] path[j - 1], path[j]),
    ensures
        best == path[0],
{
    let bests = choose|bests: Seq<DVec2>| #[trigger]
        search_trace(g, point, path, bests) && bests.len() == path.len() && bests.last() == best;
    assert forall|k: int| 0 <= k < bests.len() implies #[trigger] bests[k] == path[0] by {
        lemma_degenerate_trace(g, point, path, bests, k);
    }
}

proof fn lemma_degenerate_trace<G: Projection>(
    g: &G,
    point: DVec2,
    path: Seq<DVec2>,
    bests: Seq<DVec2>,
    k: int,
)
    requires
        search_trace(g, point, path, bests),
        0 <= k < bests.len(),
        forall|j: int| 1 <= j < path.len() ==> degenerate(#[trigger] path[j - 1], path[j]),
    ensures
        bests[k] == path[0],
    decreases k,
{
    if k > 0 {
        lemma_degenerate_trace(g, point, path, bests, k - 1);
        assert(degenerate(path[k - 1], path[k]));
        assert(segment_step(g, point, path[k - 1], path[k], bests[k - 1], bests[k]));
    }
}

} // verus!
