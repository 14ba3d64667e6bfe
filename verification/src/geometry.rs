//! Points of the integer grid, the orientation predicate and the
//! intersection of two segments.

use vstd::prelude::*;

verus! {

/// A point of the integer grid.
#[derive(Clone, Copy, Debug, PartialEq, Eq, Structural)]
pub struct Point {
    pub x: i32,
    pub y: i32,
}

impl Point {
    /// The order in which the sweep visits points: by `x`, then by `y`.
    pub open spec fn precedes(self, other: Point) -> bool {
        self.x < other.x || (self.x == other.x && self.y < other.y)
    }

    pub fn new(x: i32, y: i32) -> (p: Point)
        ensures
            p.x == x,
            p.y == y,
    {
        Point { x, y }
    }

    /// Whether the sweep visits `self` strictly before `other`.
    pub fn is_before(&self, other: &Point) -> (b: bool)
        ensures
            b == self.precedes(*other),
    {
        self.x < other.x || (self.x == other.x && self.y < other.y)
    }
}

/// The axis-aligned box around a polygon, given by its lowest and its
/// highest corner.
#[derive(Clone, Copy, Debug, PartialEq, Eq, Structural)]
pub struct BoundingBox {
    pub min: Point,
    pub max: Point,
}

impl BoundingBox {
    pub fn new(min: Point, max: Point) -> (bbox: BoundingBox)
        ensures
            bbox.min == min,
            bbox.max == max,
    {
        BoundingBox { min, max }
    }
}

/// The cross product of the vectors `(ux, uy)` and `(vx, vy)`.
pub open spec fn cross(ux: int, uy: int, vx: int, vy: int) -> int {
    ux * vy - uy * vx
}

/// Twice the signed area of the triangle `p0`, `p1`, `p2`: positive when `p2`
/// lies to the left of the ray from `p0` through `p1`, zero when the three
/// points are collinear.
pub open spec fn orient(p0: Point, p1: Point, p2: Point) -> int {
    (p0.x - p2.x) * (p1.y - p2.y) - (p1.x - p2.x) * (p0.y - p2.y)
}

/// Whether the vector `(x, y)` points forward in sweep order.
pub open spec fn forward(x: int, y: int) -> bool {
    x > 0 || (x == 0 && y > 0)
}

pub proof fn lemma_product_bound(a: int, b: int, ka: int, kb: int)
    by (nonlinear_arith)
    requires
        -ka <= a <= ka,
        -kb <= b <= kb,
    ensures
        -(ka * kb) <= a * b <= ka * kb,
{
}

/// `orient` is the cross product of the two vectors that start at `p0`.
pub proof fn lemma_orient_is_cross(p0: Point, p1: Point, p2: Point)
    by (nonlinear_arith)
    ensures
        orient(p0, p1, p2) == cross(p1.x - p0.x, p1.y - p0.y, p2.x - p0.x, p2.y - p0.y),
        orient(p0, p1, p2) == -orient(p0, p2, p1),
        orient(p0, p1, p2) == -orient(p1, p0, p2),
        orient(p0, p1, p2) == orient(p1, p2, p0),
{
}

/// `x * (a * b - c * d)` written out as a difference of two triple products.
proof fn lemma_scale_cross(x: int, a: int, b: int, c: int, d: int)
    by (nonlinear_arith)
    ensures
        x * (a * b - c * d) == x * a * b - x * c * d,
{
}

proof fn lemma_triple_product(a: int, b: int, c: int)
    by (nonlinear_arith)
    ensures
        a * b * c == a * c * b,
        a * b * c == b * a * c,
        a * b * c == c * b * a,
        a * b * c == b * c * a,
        a * b * c == c * a * b,
{
}

/// The cross products of three vectors are linearly dependent.
pub proof fn lemma_cross_identity(ux: int, uy: int, vx: int, vy: int, wx: int, wy: int)
    ensures
        vx * cross(ux, uy, wx, wy) == ux * cross(vx, vy, wx, wy) + wx * cross(ux, uy, vx, vy),
        vy * cross(ux, uy, wx, wy) == uy * cross(vx, vy, wx, wy) + wy * cross(ux, uy, vx, vy),
{
    lemma_scale_cross(vx, ux, wy, uy, wx);
    lemma_scale_cross(ux, vx, wy, vy, wx);
    lemma_scale_cross(wx, ux, vy, uy, vx);
    lemma_triple_product(vx, ux, wy);
    lemma_triple_product(vx, uy, wx);
    lemma_triple_product(ux, vy, wx);
    lemma_triple_product(wx, ux, vy);
    lemma_triple_product(wx, uy, vx);
    lemma_scale_cross(vy, ux, wy, uy, wx);
    lemma_scale_cross(uy, vx, wy, vy, wx);
    lemma_scale_cross(wy, ux, vy, uy, vx);
    lemma_triple_product(vy, ux, wy);
    lemma_triple_product(vy, uy, wx);
    lemma_triple_product(uy, vx, wy);
    lemma_triple_product(uy, vy, wx);
    lemma_triple_product(wy, ux, vy);
    lemma_triple_product(wy, uy, vx);
}

proof fn lemma_sign_of_product(a: int, b: int)
    by (nonlinear_arith)
    ensures
        a > 0 && b > 0 ==> a * b > 0,
        a >= 0 && b >= 0 ==> a * b >= 0,
        a == 0 || b == 0 ==> a * b == 0,
        a > 0 && b < 0 ==> a * b < 0,
        a > 0 && a * b > 0 ==> b > 0,
        a > 0 && a * b == 0 ==> b == 0,
        a > 0 && a * b < 0 ==> b < 0,
{
}

/// Among vectors that point forward, "turns left towards" is a strict weak
/// order: the direction of a vector is its slope.
pub proof fn lemma_forward_turns(ux: int, uy: int, vx: int, vy: int, wx: int, wy: int)
    requires
        forward(ux, uy),
        forward(vx, vy),
        forward(wx, wy),
    ensures
        cross(ux, uy, vx, vy) > 0 && cross(vx, vy, wx, wy) >= 0 ==> cross(ux, uy, wx, wy) > 0,
        cross(ux, uy, vx, vy) >= 0 && cross(vx, vy, wx, wy) > 0 ==> cross(ux, uy, wx, wy) > 0,
        cross(ux, uy, vx, vy) == 0 && cross(vx, vy, wx, wy) == 0 ==> cross(ux, uy, wx, wy) == 0,
{
    let uv = cross(ux, uy, vx, vy);
    let vw = cross(vx, vy, wx, wy);
    let uw = cross(ux, uy, wx, wy);
    lemma_cross_identity(ux, uy, vx, vy, wx, wy);
    lemma_sign_of_product(ux, vy);
    lemma_sign_of_product(uy, vx);
    lemma_sign_of_product(vx, wy);
    lemma_sign_of_product(vy, wx);
    lemma_sign_of_product(ux, wy);
    lemma_sign_of_product(uy, wx);
    if uv >= 0 && vw >= 0 {
        if vx > 0 {
            lemma_sign_of_product(ux, vw);
            lemma_sign_of_product(wx, uv);
            lemma_sign_of_product(vx, uw);
        }
    }
}

/// Twice the signed area of the triangle `p0`, `p1`, `p2`.
pub fn signed_area(p0: Point, p1: Point, p2: Point) -> (area: i128)
    ensures
        area == orient(p0, p1, p2),
{
    let ax: i128 = p0.x as i128 - p2.x as i128;
    let ay: i128 = p1.y as i128 - p2.y as i128;
    let bx: i128 = p1.x as i128 - p2.x as i128;
    let by: i128 = p0.y as i128 - p2.y as i128;
    proof {
        lemma_product_bound(ax as int, ay as int, 0x1_0000_0000, 0x1_0000_0000);
        lemma_product_bound(bx as int, by as int, 0x1_0000_0000, 0x1_0000_0000);
    }
    ax * ay - bx * by
}

/// How two segments meet.
#[derive(Clone, Copy, Debug, PartialEq, Eq, Structural)]
pub enum LineIntersection {
    /// The segments have no point in common.
    Disjoint,
    /// The segments meet in one point.
    Single(Point),
    /// The segments lie on one line and share more than a point: the shared
    /// part runs from the first point to the second.
    Overlap(Point, Point),
}

pub open spec fn magnitude(v: int) -> int {
    if v < 0 {
        -v
    } else {
        v
    }
}

/// `n * d / k` rounded to the nearest integer, a half rounded up.
pub open spec fn rounded_ratio(n: int, d: int, k: int) -> int {
    (2 * (n * d) + k) / (2 * k)
}

/// The grid point nearest to the point at `n / k` of the way from `a1` to
/// `a2`, each coordinate rounded by itself and a half rounded away from `a1`.
pub open spec fn point_along(a1: Point, a2: Point, n: int, k: int) -> Point {
    let dx = a2.x - a1.x;
    let dy = a2.y - a1.y;
    Point {
        x: (a1.x + rounded_ratio(n, dx, k)) as i32,
        y: (if dy >= 0 {
            a1.y + rounded_ratio(n, dy, k)
        } else {
            a1.y - rounded_ratio(n, -dy, k)
        }) as i32,
    }
}

pub open spec fn later(p: Point, q: Point) -> Point {
    if p.precedes(q) {
        q
    } else {
        p
    }
}

pub open spec fn earlier(p: Point, q: Point) -> Point {
    if q.precedes(p) {
        q
    } else {
        p
    }
}

/// How the segment from `a1` to `a2` meets the segment from `b1` to `b2`,
/// each given from its first endpoint in sweep order to its last.
///
/// Two segments on different lines meet where the lines cross, if that point
/// lies on both; it is an endpoint where one segment ends on the other, and
/// else the crossing rounded to the grid. Two segments on one line share the
/// part between the later start and the earlier end.
pub open spec fn intersect(a1: Point, a2: Point, b1: Point, b2: Point) -> LineIntersection {
    let kross = cross(a2.x - a1.x, a2.y - a1.y, b2.x - b1.x, b2.y - b1.y);
    let s = cross(b1.x - a1.x, b1.y - a1.y, b2.x - b1.x, b2.y - b1.y);
    let t = cross(b1.x - a1.x, b1.y - a1.y, a2.x - a1.x, a2.y - a1.y);
    if kross != 0 {
        let k = magnitude(kross);
        let sn = if kross > 0 {
            s
        } else {
            -s
        };
        let tn = if kross > 0 {
            t
        } else {
            -t
        };
        if sn < 0 || sn > k || tn < 0 || tn > k {
            LineIntersection::Disjoint
        } else if sn == 0 {
            LineIntersection::Single(a1)
        } else if sn == k {
            LineIntersection::Single(a2)
        } else if tn == 0 {
            LineIntersection::Single(b1)
        } else if tn == k {
            LineIntersection::Single(b2)
        } else {
            LineIntersection::Single(point_along(a1, a2, sn, k))
        }
    } else if t != 0 {
        LineIntersection::Disjoint
    } else {
        let lo = later(a1, b1);
        let hi = earlier(a2, b2);
        if lo.precedes(hi) {
            LineIntersection::Overlap(lo, hi)
        } else if lo == hi {
            LineIntersection::Single(lo)
        } else {
            LineIntersection::Disjoint
        }
    }
}

/// Each end of one segment against the line of the other, in terms of the
/// three cross products that `intersect` computes.
pub proof fn lemma_ends_against_lines(a1: Point, a2: Point, b1: Point, b2: Point)
    ensures
        ({
            let kross = cross(a2.x - a1.x, a2.y - a1.y, b2.x - b1.x, b2.y - b1.y);
            let s = cross(b1.x - a1.x, b1.y - a1.y, b2.x - b1.x, b2.y - b1.y);
            let t = cross(b1.x - a1.x, b1.y - a1.y, a2.x - a1.x, a2.y - a1.y);
            &&& orient(a1, a2, b1) == -t
            &&& orient(a1, a2, b2) == kross - t
            &&& orient(b1, b2, a1) == s
            &&& orient(b1, b2, a2) == s - kross
            &&& orient(a1, a2, a1) == 0
            &&& orient(a1, a2, a2) == 0
            &&& orient(b1, b2, b1) == 0
            &&& orient(b1, b2, b2) == 0
        }),
{
    let vax = a2.x - a1.x;
    let vay = a2.y - a1.y;
    let vbx = b2.x - b1.x;
    let vby = b2.y - b1.y;
    let ex = b1.x - a1.x;
    let ey = b1.y - a1.y;
    let kross = cross(vax, vay, vbx, vby);
    let s = cross(ex, ey, vbx, vby);
    let t = cross(ex, ey, vax, vay);
    lemma_orient_is_cross(a1, a2, b1);
    lemma_orient_is_cross(a1, a2, b2);
    lemma_orient_is_cross(b1, b2, a1);
    lemma_orient_is_cross(b1, b2, a2);
    lemma_orient_is_cross(a1, a2, a1);
    lemma_orient_is_cross(a1, a2, a2);
    lemma_orient_is_cross(b1, b2, b1);
    lemma_orient_is_cross(b1, b2, b2);
    assert(orient(a1, a2, b1) == -t) by (nonlinear_arith)
        requires
            orient(a1, a2, b1) == cross(vax, vay, ex, ey),
            t == cross(ex, ey, vax, vay),
    ;
    assert(orient(a1, a2, b2) == kross - t) by (nonlinear_arith)
        requires
            orient(a1, a2, b2) == cross(vax, vay, b2.x - a1.x, b2.y - a1.y),
            b2.x - a1.x == ex + vbx,
            b2.y - a1.y == ey + vby,
            t == cross(ex, ey, vax, vay),
            kross == cross(vax, vay, vbx, vby),
    ;
    assert(orient(b1, b2, a1) == s) by (nonlinear_arith)
        requires
            orient(b1, b2, a1) == cross(vbx, vby, a1.x - b1.x, a1.y - b1.y),
            a1.x - b1.x == -ex,
            a1.y - b1.y == -ey,
            s == cross(ex, ey, vbx, vby),
    ;
    assert(orient(b1, b2, a2) == s - kross) by (nonlinear_arith)
        requires
            orient(b1, b2, a2) == cross(vbx, vby, a2.x - b1.x, a2.y - b1.y),
            a2.x - b1.x == vax - ex,
            a2.y - b1.y == vay - ey,
            s == cross(ex, ey, vbx, vby),
            kross == cross(vax, vay, vbx, vby),
    ;
    assert(orient(a1, a2, a1) == 0 && orient(a1, a2, a2) == 0 && orient(b1, b2, b1) == 0 && orient(
        b1,
        b2,
        b2,
    ) == 0) by (nonlinear_arith)
        requires
            orient(a1, a2, a1) == cross(vax, vay, 0, 0),
            orient(a1, a2, a2) == cross(vax, vay, vax, vay),
            orient(b1, b2, b1) == cross(vbx, vby, 0, 0),
            orient(b1, b2, b2) == cross(vbx, vby, vbx, vby),
    ;
}

/// A number whose products with two numbers, not both zero, are zero is zero.
pub proof fn lemma_zero_factor(x: int, y: int, c: int)
    by (nonlinear_arith)
    requires
        x * c == 0,
        y * c == 0,
        x != 0 || y != 0,
    ensures
        c == 0,
{
}

/// Two segments of positive length lie on one line as seen from the first
/// if and only if they do as seen from the second.
pub proof fn lemma_collinear_both_ways(a1: Point, a2: Point, b1: Point, b2: Point)
    requires
        a1 != a2,
        b1 != b2,
    ensures
        (orient(a1, a2, b1) == 0 && orient(a1, a2, b2) == 0) <==> (orient(b1, b2, a1) == 0
            && orient(b1, b2, a2) == 0),
{
    let vax = a2.x - a1.x;
    let vay = a2.y - a1.y;
    let vbx = b2.x - b1.x;
    let vby = b2.y - b1.y;
    let ex = b1.x - a1.x;
    let ey = b1.y - a1.y;
    let kross = cross(vax, vay, vbx, vby);
    let s = cross(ex, ey, vbx, vby);
    let t = cross(ex, ey, vax, vay);
    lemma_ends_against_lines(a1, a2, b1, b2);
    lemma_cross_identity(ex, ey, vax, vay, vbx, vby);
    lemma_cross_identity(ex, ey, vbx, vby, vax, vay);
    if kross == 0 {
        assert(cross(vbx, vby, vax, vay) == 0) by (nonlinear_arith)
            requires
                kross == vax * vby - vay * vbx,
                kross == 0,
                cross(vbx, vby, vax, vay) == vbx * vay - vby * vax,
        ;
        if t == 0 && s != 0 {
            assert(vax * s == 0 && vay * s == 0) by (nonlinear_arith)
                requires
                    vax * s == ex * kross + vbx * t,
                    vay * s == ey * kross + vby * t,
                    kross == 0,
                    t == 0,
            ;
            lemma_zero_factor(vax, vay, s);
        }
        if s == 0 && t != 0 {
            assert(vbx * t == 0 && vby * t == 0) by (nonlinear_arith)
                requires
                    vbx * t == ex * cross(vbx, vby, vax, vay) + vax * s,
                    vby * t == ey * cross(vbx, vby, vax, vay) + vay * s,
                    cross(vbx, vby, vax, vay) == 0,
                    s == 0,
            ;
            lemma_zero_factor(vbx, vby, t);
        }
    }
}

/// A rounded ratio of a part to the whole stays within the whole, and lies
/// within a half of the exact ratio.
pub proof fn lemma_rounded_ratio(n: int, d: int, k: int)
    requires
        0 <= n <= k,
        0 <= d,
        0 < k,
    ensures
        0 <= rounded_ratio(n, d, k) <= d,
        -k < 2 * (k * rounded_ratio(n, d, k) - n * d) <= k,
{
    let a = 2 * (n * d) + k;
    let b = 2 * k;
    let q = a / b;
    lemma_sign_of_product(n, d);
    vstd::arithmetic::div_mod::lemma_fundamental_div_mod(a, b);
    vstd::arithmetic::div_mod::lemma_mod_bound(a, b);
    vstd::arithmetic::div_mod::lemma_div_pos_is_pos(a, b);
    vstd::arithmetic::mul::lemma_mul_inequality(n, k, d);
    assert(b * q == 2 * (k * q)) by (nonlinear_arith)
        requires
            b == 2 * k,
    ;
    assert(q >= d + 1 ==> k * q >= k * d + k) by (nonlinear_arith)
        requires
            k > 0,
    ;
}

fn round_ratio(n: u128, d: u128, k: u128) -> (q: u128)
    requires
        0 < k <= 0x4_0000_0000_0000_0000,
        n <= k,
        d <= 0x1_0000_0000,
    ensures
        q == rounded_ratio(n as int, d as int, k as int),
        q <= d,
{
    proof {
        lemma_product_bound(n as int, d as int, 0x4_0000_0000_0000_0000, 0x1_0000_0000);
        lemma_rounded_ratio(n as int, d as int, k as int);
    }
    (2 * (n * d) + k) / (2 * k)
}

/// How the segment from `a1` to `a2` meets the segment from `b1` to `b2`.
pub fn intersection(a1: Point, a2: Point, b1: Point, b2: Point) -> (r: LineIntersection)
    requires
        a1.precedes(a2),
        b1.precedes(b2),
    ensures
        r == intersect(a1, a2, b1, b2),
{
    let vax: i128 = a2.x as i128 - a1.x as i128;
    let vay: i128 = a2.y as i128 - a1.y as i128;
    let vbx: i128 = b2.x as i128 - b1.x as i128;
    let vby: i128 = b2.y as i128 - b1.y as i128;
    let ex: i128 = b1.x as i128 - a1.x as i128;
    let ey: i128 = b1.y as i128 - a1.y as i128;
    proof {
        lemma_product_bound(vax as int, vby as int, 0x1_0000_0000, 0x1_0000_0000);
        lemma_product_bound(vay as int, vbx as int, 0x1_0000_0000, 0x1_0000_0000);
        lemma_product_bound(ex as int, vby as int, 0x1_0000_0000, 0x1_0000_0000);
        lemma_product_bound(ey as int, vbx as int, 0x1_0000_0000, 0x1_0000_0000);
        lemma_product_bound(ex as int, vay as int, 0x1_0000_0000, 0x1_0000_0000);
        lemma_product_bound(ey as int, vax as int, 0x1_0000_0000, 0x1_0000_0000);
    }
    let kross: i128 = vax * vby - vay * vbx;
    let s: i128 = ex * vby - ey * vbx;
    let t: i128 = ex * vay - ey * vax;
    if kross != 0 {
        let k: i128 = if kross > 0 {
            kross
        } else {
            -kross
        };
        let sn: i128 = if kross > 0 {
            s
        } else {
            -s
        };
        let tn: i128 = if kross > 0 {
            t
        } else {
            -t
        };
        if sn < 0 || sn > k || tn < 0 || tn > k {
            LineIntersection::Disjoint
        } else if sn == 0 {
            LineIntersection::Single(a1)
        } else if sn == k {
            LineIntersection::Single(a2)
        } else if tn == 0 {
            LineIntersection::Single(b1)
        } else if tn == k {
            LineIntersection::Single(b2)
        } else {
            let rx: u128 = round_ratio(sn as u128, vax as u128, k as u128);
            let x: i32 = (a1.x as i128 + rx as i128) as i32;
            let y: i32 = if vay >= 0 {
                let ry: u128 = round_ratio(sn as u128, vay as u128, k as u128);
                (a1.y as i128 + ry as i128) as i32
            } else {
                let ry: u128 = round_ratio(sn as u128, (-vay) as u128, k as u128);
                (a1.y as i128 - ry as i128) as i32
            };
            LineIntersection::Single(Point { x, y })
        }
    } else if t != 0 {
        LineIntersection::Disjoint
    } else {
        let lo = if a1.is_before(&b1) {
            b1
        } else {
            a1
        };
        let hi = if b2.is_before(&a2) {
            b2
        } else {
            a2
        };
        if lo.is_before(&hi) {
            LineIntersection::Overlap(lo, hi)
        } else if lo == hi {
            LineIntersection::Single(lo)
        } else {
            LineIntersection::Disjoint
        }
    }
}

} // verus!
