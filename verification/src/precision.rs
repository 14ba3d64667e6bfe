//! How far a split point lies from the segments that it splits, and what a
//! split leaves of a segment.

use crate::geometry::{
    cross, intersect, lemma_collinear_both_ways, lemma_cross_identity, lemma_ends_against_lines,
    lemma_orient_is_cross, lemma_product_bound, lemma_rounded_ratio, lemma_zero_factor,
    magnitude, orient, point_along, rounded_ratio, LineIntersection, Point,
};
use crate::event::{event_ok, events_wf, twin_point, SweepEvent};
use crate::resolve::{
    can_divide, divided, lemma_divided, lemma_divided_other, lemma_divided_tail,
    lemma_marked, lemma_overlap_ends, marked, resolved, Stores,
};
use vstd::prelude::*;

verus! {

/// Whether the line through `a` and `b` passes within half a grid step of
/// `p` in each coordinate: some point of the line lies in the closed unit
/// square around `p`.
pub open spec fn near_line(p: Point, a: Point, b: Point) -> bool {
    2 * magnitude(orient(a, b, p)) <= magnitude(b.x - a.x) + magnitude(b.y - a.y)
}

proof fn lemma_cross_of_sum(
    vx: int,
    vy: int,
    k: int,
    wx: int,
    wy: int,
    tx: int,
    ty: int,
    ex: int,
    ey: int,
)
    requires
        k * wx == tx + ex,
        k * wy == ty + ey,
        cross(vx, vy, tx, ty) == 0,
    ensures
        k * cross(vx, vy, wx, wy) == vx * ey - vy * ex,
{
    assert(k * (vx * wy - vy * wx) == vx * (k * wy) - vy * (k * wx)) by (nonlinear_arith);
    assert(vx * (ty + ey) == vx * ty + vx * ey) by (nonlinear_arith);
    assert(vy * (tx + ex) == vy * tx + vy * ex) by (nonlinear_arith);
}

proof fn lemma_divide_bound(k: int, c: int, m: int)
    by (nonlinear_arith)
    requires
        k > 0,
        -(m * k) <= k * c <= m * k,
    ensures
        -m <= c <= m,
{
}

/// A point that lies within half a step of a point `t / k` of the line
/// through the origin along `v` is near that line.
proof fn lemma_near(
    vx: int,
    vy: int,
    k: int,
    wx: int,
    wy: int,
    tx: int,
    ty: int,
    ex: int,
    ey: int,
)
    requires
        k > 0,
        k * wx == tx + ex,
        k * wy == ty + ey,
        cross(vx, vy, tx, ty) == 0,
        -k <= 2 * ex <= k,
        -k <= 2 * ey <= k,
    ensures
        2 * magnitude(cross(vx, vy, wx, wy)) <= magnitude(vx) + magnitude(vy),
{
    let c = cross(vx, vy, wx, wy);
    let m = magnitude(vx) + magnitude(vy);
    lemma_cross_of_sum(vx, vy, k, wx, wy, tx, ty, ex, ey);
    lemma_product_bound(vx, 2 * ey, magnitude(vx), k);
    lemma_product_bound(vy, 2 * ex, magnitude(vy), k);
    assert(vx * (2 * ey) == 2 * (vx * ey)) by (nonlinear_arith);
    assert(vy * (2 * ex) == 2 * (vy * ex)) by (nonlinear_arith);
    assert(k * (2 * c) == 2 * (k * c)) by (nonlinear_arith);
    assert(m * k == magnitude(vx) * k + magnitude(vy) * k) by (nonlinear_arith)
        requires
            m == magnitude(vx) + magnitude(vy),
    ;
    lemma_divide_bound(k, 2 * c, m);
}

/// The rounded point at `n / k` of the way from `a1` to `a2`, as an offset
/// from `a1`, and how far it is from the exact point.
proof fn lemma_point_along(a1: Point, a2: Point, n: int, k: int)
    requires
        a1.precedes(a2),
        0 <= n <= k,
        0 < k,
    ensures
        ({
            let p = point_along(a1, a2, n, k);
            let ex = k * (p.x - a1.x) - n * (a2.x - a1.x);
            let ey = k * (p.y - a1.y) - n * (a2.y - a1.y);
            &&& -k <= 2 * ex <= k
            &&& -k <= 2 * ey <= k
            &&& a1.x <= p.x <= a2.x
            &&& a1.y <= p.y <= a2.y || a2.y <= p.y <= a1.y
        }),
{
    let dx = a2.x - a1.x;
    let dy = a2.y - a1.y;
    lemma_rounded_ratio(n, dx, k);
    if dy >= 0 {
        lemma_rounded_ratio(n, dy, k);
    } else {
        lemma_rounded_ratio(n, -dy, k);
        let r = rounded_ratio(n, -dy, k);
        assert(k * (-r) == -(k * r)) by (nonlinear_arith);
        assert(n * (-dy) == -(n * dy)) by (nonlinear_arith);
    }
}

/// Where two segments meet in one point, both lines pass within half a grid
/// step of that point; where they overlap, both ends of the shared part lie
/// on both lines.
pub proof fn lemma_meeting_point_near_lines(a1: Point, a2: Point, b1: Point, b2: Point)
    requires
        a1.precedes(a2),
        b1.precedes(b2),
    ensures
        match intersect(a1, a2, b1, b2) {
            LineIntersection::Disjoint => true,
            LineIntersection::Single(p) => near_line(p, a1, a2) && near_line(p, b1, b2),
            LineIntersection::Overlap(lo, hi) => {
                &&& orient(a1, a2, lo) == 0
                &&& orient(a1, a2, hi) == 0
                &&& orient(b1, b2, lo) == 0
                &&& orient(b1, b2, hi) == 0
            },
        },
{
    let vax = a2.x - a1.x;
    let vay = a2.y - a1.y;
    let vbx = b2.x - b1.x;
    let vby = b2.y - b1.y;
    let ex = b1.x - a1.x;
    let ey = b1.y - a1.y;
    let kross = cross(vax, vay, vbx, vby);
    let s = cross(ex, ey, vbx, vby);
    let t = cross(ex, ey, vax, vay);
    lemma_ends_against_lines(a1, a2, b1, b2);
    if kross != 0 {
        let k = magnitude(kross);
        let sn = if kross > 0 {
            s
        } else {
            -s
        };
        let tn = if kross > 0 {
            t
        } else {
            -t
        };
        if 0 < sn < k && 0 < tn < k {
            let p = point_along(a1, a2, sn, k);
            lemma_point_along(a1, a2, sn, k);
            let wx = p.x - a1.x;
            let wy = p.y - a1.y;
            let dx = k * wx - sn * vax;
            let dy = k * wy - sn * vay;
            // The exact point lies on the first line.
            assert(cross(vax, vay, sn * vax, sn * vay) == 0) by (nonlinear_arith);
            lemma_near(vax, vay, k, wx, wy, sn * vax, sn * vay, dx, dy);
            lemma_orient_is_cross(a1, a2, p);
            // The exact point lies on the second line as well.
            let tx2 = sn * vax - k * ex;
            let ty2 = sn * vay - k * ey;
            let m1 = vbx * vay;
            let m2 = vby * vax;
            let m3 = vbx * ey;
            let m4 = vby * ex;
            assert(kross == m2 - m1 && s == m4 - m3) by (nonlinear_arith)
                requires
                    kross == vax * vby - vay * vbx,
                    s == ex * vby - ey * vbx,
                    m1 == vbx * vay,
                    m2 == vby * vax,
                    m3 == vbx * ey,
                    m4 == vby * ex,
            ;
            assert(vbx * ty2 == sn * m1 - k * m3) by (nonlinear_arith)
                requires
                    ty2 == sn * vay - k * ey,
                    m1 == vbx * vay,
                    m3 == vbx * ey,
            ;
            assert(vby * tx2 == sn * m2 - k * m4) by (nonlinear_arith)
                requires
                    tx2 == sn * vax - k * ex,
                    m2 == vby * vax,
                    m4 == vby * ex,
            ;
            assert(sn * m1 - k * m3 - (sn * m2 - k * m4) == k * s - sn * kross)
                by (nonlinear_arith)
                requires
                    kross == m2 - m1,
                    s == m4 - m3,
            ;
            assert(k * s - sn * kross == 0) by (nonlinear_arith)
                requires
                    (k == kross && sn == s) || (k == -kross && sn == -s),
            ;
            assert(cross(vbx, vby, tx2, ty2) == 0);
            assert(k * (wx - ex) == tx2 + dx && k * (wy - ey) == ty2 + dy) by (nonlinear_arith)
                requires
                    dx == k * wx - sn * vax,
                    dy == k * wy - sn * vay,
                    tx2 == sn * vax - k * ex,
                    ty2 == sn * vay - k * ey,
            ;
            lemma_near(vbx, vby, k, wx - ex, wy - ey, tx2, ty2, dx, dy);
            lemma_orient_is_cross(b1, b2, p);
        }
    } else if t == 0 {
        // Parallel, and the start of the second segment lies on the first
        // line: then every end lies on both lines.
        lemma_collinear_both_ways(a1, a2, b1, b2);
    }
}

/// Whether `(px, py)` comes before `(qx, qy)` in sweep order.
pub open spec fn comes_before(px: int, py: int, qx: int, qy: int) -> bool {
    px < qx || (px == qx && py < qy)
}

/// Whether `(zx, zy)` lies on the segment from `(ax, ay)` to `(bx, by)`,
/// given from its first end in sweep order to its last.
pub open spec fn on_segment(zx: int, zy: int, ax: int, ay: int, bx: int, by: int) -> bool {
    &&& cross(bx - ax, by - ay, zx - ax, zy - ay) == 0
    &&& !comes_before(zx, zy, ax, ay)
    &&& !comes_before(bx, by, zx, zy)
}

/// A segment that is split at a point on it is the union of its two pieces:
/// a point lies on the segment if and only if it lies on one of them. The
/// coordinates are integers of any scale, so this holds of the points
/// between the grid points as well.
pub proof fn lemma_pieces_cover(
    ax: int,
    ay: int,
    bx: int,
    by: int,
    px: int,
    py: int,
    zx: int,
    zy: int,
)
    requires
        comes_before(ax, ay, px, py),
        comes_before(px, py, bx, by),
        cross(bx - ax, by - ay, px - ax, py - ay) == 0,
    ensures
        on_segment(zx, zy, ax, ay, bx, by) <==> (on_segment(zx, zy, ax, ay, px, py) || on_segment(
            zx,
            zy,
            px,
            py,
            bx,
            by,
        )),
{
    let ux = bx - ax;
    let uy = by - ay;
    let vx = px - ax;
    let vy = py - ay;
    let wx = zx - ax;
    let wy = zy - ay;
    let uv = cross(ux, uy, vx, vy);
    let uw = cross(ux, uy, wx, wy);
    let vw = cross(vx, vy, wx, wy);
    let rest = cross(bx - px, by - py, zx - px, zy - py);
    lemma_cross_identity(ux, uy, vx, vy, wx, wy);
    assert(wx * uv == 0 && wy * uv == 0) by (nonlinear_arith)
        requires
            uv == 0,
    ;
    assert(rest == uw - uv - vw) by (nonlinear_arith)
        requires
            rest == (ux - vx) * (wy - vy) - (uy - vy) * (wx - vx),
            uw == ux * wy - uy * wx,
            uv == ux * vy - uy * vx,
            vw == vx * wy - vy * wx,
    ;
    if uw == 0 {
        assert(ux * vw == 0 && uy * vw == 0) by (nonlinear_arith)
            requires
                vx * uw == ux * vw + wx * uv,
                vy * uw == uy * vw + wy * uv,
                uw == 0,
                wx * uv == 0,
                wy * uv == 0,
        ;
        lemma_zero_factor(ux, uy, vw);
    } else {
        if vw == 0 {
            assert(vx * uw == 0 && vy * uw == 0) by (nonlinear_arith)
                requires
                    vx * uw == ux * vw + wx * uv,
                    vy * uw == uy * vw + wy * uv,
                    vw == 0,
                    wx * uv == 0,
                    wy * uv == 0,
            ;
            lemma_zero_factor(vx, vy, uw);
        }
        if rest == 0 {
            assert((ux - vx) * uw == 0 && (uy - vy) * uw == 0) by (nonlinear_arith)
                requires
                    vx * uw == ux * vw + wx * uv,
                    vy * uw == uy * vw + wy * uv,
                    vw == uw,
                    wx * uv == 0,
                    wy * uv == 0,
            ;
            lemma_zero_factor(ux - vx, uy - vy, uw);
        }
    }
}

/// Whether every event of `after` from the identifier `first_new` on lies
/// near the line through `a1` and `a2` and near the line through `b1` and
/// `b2`.
pub open spec fn new_points_near(
    first_new: nat,
    after: Seq<SweepEvent>,
    a1: Point,
    a2: Point,
    b1: Point,
    b2: Point,
) -> bool {
    forall|i: int|
        first_new <= i < after.len() ==> near_line((#[trigger] after[i]).point, a1, a2)
            && near_line(after[i].point, b1, b2)
}

proof fn lemma_cut_near(
    first_new: nat,
    ev: Seq<SweepEvent>,
    left: int,
    p: Point,
    a1: Point,
    a2: Point,
    b1: Point,
    b2: Point,
)
    requires
        events_wf(ev),
        0 <= left < ev.len(),
        can_divide(ev, left, p),
        ev.len() + 2 <= usize::MAX,
        first_new <= ev.len(),
        new_points_near(first_new, ev, a1, a2, b1, b2),
        near_line(p, a1, a2),
        near_line(p, b1, b2),
    ensures
        new_points_near(first_new, divided(ev, left, p), a1, a2, b1, b2),
{
    lemma_divided(ev, left, p);
    let after = divided(ev, left, p);
    assert forall|i: int| first_new <= i < after.len() implies near_line(
        (#[trigger] after[i]).point,
        a1,
        a2,
    ) && near_line(after[i].point, b1, b2) by {
        if i < ev.len() {
            assert(after[i].point == ev[i].point);
        }
    }
}

/// Every split produces events at points that lie on both segments up to
/// the rounding: whatever a probe of two neighbouring segments adds to the
/// arena lies within half a grid step of the line of each.
pub proof fn lemma_split_points_near(s: Stores, lower: int, upper: int, sweep: Point)
    requires
        events_wf(s.events),
        0 <= lower < s.events.len(),
        0 <= upper < s.events.len(),
        s.events[lower].is_left,
        s.events[upper].is_left,
        s.events.len() + 4 <= usize::MAX,
    ensures
        new_points_near(
            s.events.len(),
            resolved(s, lower, upper, sweep).0.events,
            s.events[lower].point,
            twin_point(s.events, lower),
            s.events[upper].point,
            twin_point(s.events, upper),
        ),
{
    let ev = s.events;
    let n = ev.len();
    let p1 = ev[lower].point;
    let q1 = twin_point(ev, lower);
    let p2 = ev[upper].point;
    let q2 = twin_point(ev, upper);
    assert(event_ok(ev, lower) && event_ok(ev, upper));
    lemma_meeting_point_near_lines(p1, q1, p2, q2);
    lemma_overlap_ends(p1, q1, p2, q2);
    if lower != upper {
        match intersect(p1, q1, p2, q2) {
            LineIntersection::Disjoint => {},
            LineIntersection::Single(p) => {
                let cut_lower = can_divide(ev, lower, p);
                let cut_upper = can_divide(ev, upper, p);
                if (cut_lower || cut_upper) && !p.precedes(sweep) {
                    let ev1 = if cut_lower {
                        divided(ev, lower, p)
                    } else {
                        ev
                    };
                    if cut_lower {
                        lemma_cut_near(n, ev, lower, p, p1, q1, p2, q2);
                        lemma_divided(ev, lower, p);
                        if cut_upper {
                            lemma_divided_other(ev, lower, p, upper, p);
                        }
                    }
                    if cut_upper {
                        lemma_cut_near(n, ev1, upper, p, p1, q1, p2, q2);
                    }
                }
            },
            LineIntersection::Overlap(lo, hi) => {
                if ev[lower].polygon != ev[upper].polygon {
                    if p1 == p2 {
                        let m = marked(ev, lower, upper);
                        lemma_marked(ev, lower, upper);
                        if q1 != q2 && !hi.precedes(sweep) {
                            let long = if q1.precedes(q2) {
                                upper
                            } else {
                                lower
                            };
                            assert(can_divide(ev, long, hi));
                            assert(can_divide(m, long, hi));
                            lemma_cut_near(n, m, long, hi, p1, q1, p2, q2);
                        }
                    } else if !lo.precedes(sweep) {
                        let first = if p1.precedes(p2) {
                            lower
                        } else {
                            upper
                        };
                        let second = if p1.precedes(p2) {
                            upper
                        } else {
                            lower
                        };
                        assert(can_divide(ev, first, lo));
                        lemma_cut_near(n, ev, first, lo, p1, q1, p2, q2);
                        lemma_divided(ev, first, lo);
                        let ev1 = divided(ev, first, lo);
                        if twin_point(ev, first) != twin_point(ev, second) {
                            if twin_point(ev, first).precedes(twin_point(ev, second)) {
                                lemma_divided_other(ev, first, lo, second, hi);
                                lemma_cut_near(n, ev1, second, hi, p1, q1, p2, q2);
                            } else {
                                lemma_divided_tail(ev, first, lo, hi);
                                lemma_cut_near(n, ev1, n as int + 1, hi, p1, q1, p2, q2);
                            }
                        }
                    }
                }
            },
        }
    }
}

} // verus!
