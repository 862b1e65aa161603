//! Exact predicates on grid points: orientation, containment, intersection,
//! the shoelace sum of a ring and the z-order key of a point.

use vstd::prelude::*;
use crate::arena::Node;

verus! {

/// Twice the signed area of the triangle `p`, `q`, `r`. It is negative where
/// the ring that holds the three points in this order is convex at `q`.
pub open spec fn orient(p: Node, q: Node, r: Node) -> int {
    (q.y - p.y) * (r.x - q.x) - (q.x - p.x) * (r.y - q.y)
}

/// The sign of `v`: -1, 0 or 1.
pub open spec fn sign_of(v: int) -> int {
    if v > 0 {
        1
    } else if v < 0 {
        -1
    } else {
        0
    }
}

/// Whether two nodes lie on the same grid point.
pub open spec fn same_point(p: Node, q: Node) -> bool {
    p.x == q.x && p.y == q.y
}

/// Whether `q` lies in the box spanned by `p` and `r`; for three points on a
/// line this says that `q` lies on the segment from `p` to `r`.
pub open spec fn in_box(p: Node, q: Node, r: Node) -> bool {
    &&& q.x <= (if p.x >= r.x { p.x } else { r.x })
    &&& q.y <= (if p.y >= r.y { p.y } else { r.y })
    &&& q.x >= (if p.x <= r.x { p.x } else { r.x })
    &&& q.y >= (if p.y <= r.y { p.y } else { r.y })
}

/// Whether the point `(px, py)` lies in the triangle `a`, `b`, `c`, its
/// border included, for a triangle given in the ring's winding.
pub open spec fn in_triangle(
    ax: int,
    ay: int,
    bx: int,
    by: int,
    cx: int,
    cy: int,
    px: int,
    py: int,
) -> bool {
    &&& (cx - px) * (ay - py) >= (ax - px) * (cy - py)
    &&& (ax - px) * (by - py) >= (bx - px) * (ay - py)
    &&& (bx - px) * (cy - py) >= (cx - px) * (by - py)
}

/// Whether the segment from `a` to `b` and the segment from `c` to `d`
/// have a point in common.
pub open spec fn segments_meet(a: Node, b: Node, c: Node, d: Node) -> bool {
    let o1 = sign_of(orient(a, b, c));
    let o2 = sign_of(orient(a, b, d));
    let o3 = sign_of(orient(c, d, a));
    let o4 = sign_of(orient(c, d, b));
    ||| (o1 != o2 && o3 != o4)
    ||| (o3 == 0 && in_box(c, a, d))
    ||| (o4 == 0 && in_box(c, b, d))
    ||| (o2 == 0 && in_box(a, d, b))
    ||| (o1 == 0 && in_box(a, c, b))
}

/// The shoelace sum of the vertices from position `i` to position `end` of
/// the buffer, `dim` coordinates each, where `j` is the vertex before `i`.
pub open spec fn shoelace_from(data: Seq<i32>, i: int, j: int, end: int, dim: int) -> int
    decreases (if i < end { end - i } else { 0 }),
{
    if i < end && dim > 0 {
        (data[j] - data[i]) * (data[i + 1] + data[j + 1]) + shoelace_from(
            data,
            i + dim,
            i,
            end,
            dim,
        )
    } else {
        0
    }
}

/// Twice the signed area of the ring whose vertices stand between the
/// positions `start` and `end` of the buffer; positive for a ring that runs
/// clockwise in a frame whose y axis points down.
pub open spec fn shoelace(data: Seq<i32>, start: int, end: int, dim: int) -> int {
    if start >= end {
        0
    } else {
        shoelace_from(data, start, end - dim, end, dim)
    }
}

/// The quotient of `a` by a positive `b`, rounded towards zero.
pub open spec fn quotient(a: int, b: int) -> int {
    if a >= 0 {
        a / b
    } else {
        -((-a) / b)
    }
}

/// Three points of which two are the same span no area.
pub proof fn lemma_orient_flat(p: Node, q: Node)
    ensures
        orient(p, q, p) == 0,
        orient(p, q, q) == 0,
        orient(p, p, q) == 0,
{
    let dx = q.x - p.x;
    let dy = q.y - p.y;
    assert(dy * (-dx) - dx * (-dy) == 0) by (nonlinear_arith);
    assert((q.y - p.y) * (p.x - q.x) - (q.x - p.x) * (p.y - q.y) == dy * (-dx) - dx * (-dy));
}

/// The product of a difference with a sum, and with a difference,
/// multiplied out.
pub proof fn lemma_multiplied_out(a: int, b: int, c: int, d: int)
    ensures
        (a - b) * (c + d) == a * c + a * d - b * c - b * d,
        (a - b) * (c - d) == a * c - a * d - b * c + b * d,
{
    assert((a - b) * (c + d) == a * c + a * d - b * c - b * d) by (nonlinear_arith);
    assert((a - b) * (c - d) == a * c - a * d - b * c + b * d) by (nonlinear_arith);
}

/// Twice the signed area of the triangle of the points `(ah, ax)`,
/// `(bh, bx)` and `(ch, cx)`.
pub open spec fn cross(ah: int, ax: int, bh: int, bx: int, ch: int, cx: int) -> int {
    (bh - ah) * (cx - ax) - (ch - ah) * (bx - ax)
}

/// The area of a triangle does not depend on the corner that it is named
/// from, and changes its sign when two corners change places.
pub proof fn lemma_cross_turned(ah: int, ax: int, bh: int, bx: int, ch: int, cx: int)
    ensures
        cross(ah, ax, bh, bx, ch, cx) == cross(bh, bx, ch, cx, ah, ax),
        cross(ah, ax, bh, bx, ch, cx) == -cross(ah, ax, ch, cx, bh, bx),
{
    lemma_multiplied_out(bh, ah, cx, ax);
    lemma_multiplied_out(ch, ah, bx, ax);
    lemma_multiplied_out(ch, bh, ax, bx);
    lemma_multiplied_out(ah, bh, cx, bx);
}

/// A point parts a triangle in three: the areas of the triangles between
/// the point and the sides add up to the area of the triangle.
pub proof fn lemma_cross_parted(
    ah: int,
    ax: int,
    bh: int,
    bx: int,
    ch: int,
    cx: int,
    qh: int,
    qx: int,
)
    ensures
        cross(ah, ax, bh, bx, ch, cx) == cross(qh, qx, bh, bx, ch, cx) + cross(
            ah,
            ax,
            qh,
            qx,
            ch,
            cx,
        ) + cross(ah, ax, bh, bx, qh, qx),
{
    lemma_multiplied_out(bh, ah, cx, ax);
    lemma_multiplied_out(ch, ah, bx, ax);
    lemma_multiplied_out(bh, qh, cx, qx);
    lemma_multiplied_out(ch, qh, bx, qx);
    lemma_multiplied_out(qh, ah, cx, ax);
    lemma_multiplied_out(ch, ah, qx, ax);
    lemma_multiplied_out(bh, ah, qx, ax);
    lemma_multiplied_out(qh, ah, bx, ax);
}

/// Two points on the line through `a` and `b` lie on a line with `a`.
pub proof fn lemma_cross_on_a_line(
    ah: int,
    ax: int,
    ph: int,
    px: int,
    qh: int,
    qx: int,
    bh: int,
    bx: int,
)
    requires
        bh != ah,
        cross(ah, ax, ph, px, bh, bx) == 0,
        cross(ah, ax, qh, qx, bh, bx) == 0,
    ensures
        cross(ah, ax, ph, px, qh, qx) == 0,
{
    let u1 = ph - ah;
    let u2 = px - ax;
    let v1 = qh - ah;
    let v2 = qx - ax;
    let w1 = bh - ah;
    let w2 = bx - ax;
    let uv = u1 * v2 - v1 * u2;
    let uw = u1 * w2 - w1 * u2;
    let vw = v1 * w2 - w1 * v2;
    let (a, b, c, d, e, f) = (u1 * v2, v1 * u2, u1 * w2, w1 * u2, v1 * w2, w1 * v2);
    assert(a * w1 == u1 * f) by (nonlinear_arith)
        requires
            a == u1 * v2,
            f == w1 * v2,
    ;
    assert(b * w1 == v1 * d) by (nonlinear_arith)
        requires
            b == v1 * u2,
            d == w1 * u2,
    ;
    assert(v1 * c == u1 * e) by (nonlinear_arith)
        requires
            c == u1 * w2,
            e == v1 * w2,
    ;
    assert((a - b) * w1 == a * w1 - b * w1) by (nonlinear_arith);
    assert(v1 * (c - d) == v1 * c - v1 * d) by (nonlinear_arith);
    assert(u1 * (e - f) == u1 * e - u1 * f) by (nonlinear_arith);
    assert(uv * w1 == v1 * uw - u1 * vw);
    assert(uw == 0 && vw == 0);
    assert(uv * w1 == 0) by (nonlinear_arith)
        requires
            uv * w1 == v1 * uw - u1 * vw,
            uw == 0,
            vw == 0,
    ;
    assert(uv == 0) by (nonlinear_arith)
        requires
            uv * w1 == 0,
            w1 != 0,
    ;
}

/// Whether `x` has the sign of `s`, or is nothing.
pub open spec fn sided(x: int, s: int) -> bool {
    &&& s > 0 ==> x >= 0
    &&& s < 0 ==> x <= 0
    &&& s == 0 ==> x == 0
}

/// A number of which a positive multiple is a multiple of `s` that is not
/// negative has the sign of `s`, or is nothing.
pub proof fn lemma_sided_part(x: int, s: int, n: int, d: int)
    requires
        x * d == n * s,
        d > 0,
        n >= 0,
    ensures
        sided(x, s),
{
    if s > 0 {
        assert(n * s >= 0) by (nonlinear_arith)
            requires
                n >= 0,
                s > 0,
        ;
        assert(x >= 0) by (nonlinear_arith)
            requires
                x * d >= 0,
                d > 0,
        ;
    } else if s < 0 {
        assert(n * s <= 0) by (nonlinear_arith)
            requires
                n >= 0,
                s < 0,
        ;
        assert(x <= 0) by (nonlinear_arith)
            requires
                x * d <= 0,
                d > 0,
        ;
    } else {
        assert(n * s == 0) by (nonlinear_arith)
            requires
                s == 0,
        ;
        assert(x == 0) by (nonlinear_arith)
            requires
                x * d == 0,
                d > 0,
        ;
    }
}

/// How wide a wedge is at a height: for points `p` and `q` at the same
/// height `h` on the lines from `a` to `b` and from `a` to `c`, the width
/// from `p` to `q` is to the area of the triangle `a`, `b`, `c` as the
/// height above `a` is to the product of the heights of `b` and `c` above
/// `a`.
pub proof fn lemma_wedge_width(
    ah: int,
    ax: int,
    bh: int,
    bx: int,
    ch: int,
    cx: int,
    h: int,
    px: int,
    qx: int,
)
    requires
        cross(ah, ax, h, px, bh, bx) == 0,
        cross(ah, ax, h, qx, ch, cx) == 0,
    ensures
        (qx - px) * ((bh - ah) * (ch - ah)) == (h - ah) * cross(ah, ax, bh, bx, ch, cx),
{
    let d = h - ah;
    let h2 = bh - ah;
    let h3 = ch - ah;
    let b = bx - ax;
    let c = cx - ax;
    let p = px - ax;
    let q = qx - ax;
    assert(d * b == h2 * p);
    assert(d * c == h3 * q);
    assert(q * (h2 * h3) == (d * c) * h2) by (nonlinear_arith)
        requires
            d * c == h3 * q,
    ;
    assert(p * (h2 * h3) == (d * b) * h3) by (nonlinear_arith)
        requires
            d * b == h2 * p,
    ;
    assert((d * c) * h2 - (d * b) * h3 == d * (h2 * c - h3 * b)) by (nonlinear_arith);
    assert((q - p) * (h2 * h3) == q * (h2 * h3) - p * (h2 * h3)) by (nonlinear_arith);
    assert(qx - px == q - p);
}

/// Whether the heights `h` and `h2` lie on the way from the height `ah` to
/// the heights `bh` and `ch`, in this order: all above `ah`, or all below.
pub open spec fn on_the_rise(ah: int, bh: int, ch: int, h: int, h2: int) -> bool {
    ||| ah < h <= h2 && h2 <= bh && h2 <= ch
    ||| ah > h >= h2 && h2 >= bh && h2 >= ch
}

/// The triangle that a grid line cuts off the corner of a wedge has the
/// sign of the wedge, or is nothing.
pub proof fn lemma_corner_sided(
    ah: int,
    ax: int,
    bh: int,
    bx: int,
    ch: int,
    cx: int,
    h: int,
    px: int,
    qx: int,
)
    requires
        on_the_rise(ah, bh, ch, h, h),
        cross(ah, ax, h, px, bh, bx) == 0,
        cross(ah, ax, h, qx, ch, cx) == 0,
    ensures
        sided(cross(ah, ax, h, px, h, qx), cross(ah, ax, bh, bx, ch, cx)),
{
    let s = cross(ah, ax, bh, bx, ch, cx);
    let d = h - ah;
    let u = qx - px;
    let m = (bh - ah) * (ch - ah);
    lemma_wedge_width(ah, ax, bh, bx, ch, cx, h, px, qx);
    assert(m > 0) by (nonlinear_arith)
        requires
            m == (bh - ah) * (ch - ah),
            (bh > ah && ch > ah) || (bh < ah && ch < ah),
    ;
    lemma_multiplied_out(h, ah, qx, ax);
    lemma_multiplied_out(h, ah, px, ax);
    lemma_multiplied_out(h, ah, qx, px);
    assert(cross(ah, ax, h, px, h, qx) == d * u);
    assert((d * u) * m == (d * d) * s) by (nonlinear_arith)
        requires
            u * m == d * s,
    ;
    assert(d * d >= 0) by (nonlinear_arith);
    lemma_sided_part(d * u, s, d * d, m);
}

/// The two triangles of the strip between two grid lines of a wedge have
/// the sign of the wedge, or are nothing.
pub proof fn lemma_strip_sided(
    ah: int,
    ax: int,
    bh: int,
    bx: int,
    ch: int,
    cx: int,
    h: int,
    px: int,
    qx: int,
    h2: int,
    px2: int,
    qx2: int,
)
    requires
        on_the_rise(ah, bh, ch, h, h2),
        cross(ah, ax, h, px, bh, bx) == 0,
        cross(ah, ax, h, qx, ch, cx) == 0,
        cross(ah, ax, h2, px2, bh, bx) == 0,
        cross(ah, ax, h2, qx2, ch, cx) == 0,
    ensures
        sided(cross(h, qx, h, px, h2, qx2), cross(ah, ax, bh, bx, ch, cx)),
        sided(cross(h2, qx2, h, px, h2, px2), cross(ah, ax, bh, bx, ch, cx)),
{
    let s = cross(ah, ax, bh, bx, ch, cx);
    let d = h - ah;
    let d2 = h2 - ah;
    let dh = h2 - h;
    let u = qx - px;
    let u2 = qx2 - px2;
    let m = (bh - ah) * (ch - ah);
    lemma_wedge_width(ah, ax, bh, bx, ch, cx, h, px, qx);
    lemma_wedge_width(ah, ax, bh, bx, ch, cx, h2, px2, qx2);
    assert(m > 0) by (nonlinear_arith)
        requires
            m == (bh - ah) * (ch - ah),
            (bh > ah && ch > ah) || (bh < ah && ch < ah),
    ;
    lemma_multiplied_out(h, h, qx2, qx);
    lemma_multiplied_out(h2, h, px, qx);
    assert((h - h) * (qx2 - qx) == 0) by (nonlinear_arith);
    assert((h2 - h) * (px - qx) == -(dh * u)) by (nonlinear_arith)
        requires
            dh == h2 - h,
            u == qx - px,
    ;
    assert(cross(h, qx, h, px, h2, qx2) == dh * u);
    assert((h2 - h2) * (px - qx2) == 0) by (nonlinear_arith);
    assert((h - h2) * (px2 - qx2) == dh * u2) by (nonlinear_arith)
        requires
            dh == h2 - h,
            u2 == qx2 - px2,
    ;
    assert(cross(h2, qx2, h, px, h2, px2) == dh * u2);
    assert((dh * u) * m == (dh * d) * s) by (nonlinear_arith)
        requires
            u * m == d * s,
    ;
    assert((dh * u2) * m == (dh * d2) * s) by (nonlinear_arith)
        requires
            u2 * m == d2 * s,
    ;
    assert(dh * d >= 0 && dh * d2 >= 0) by (nonlinear_arith)
        requires
            (dh >= 0 && d > 0 && d2 > 0) || (dh <= 0 && d < 0 && d2 < 0),
    ;
    lemma_sided_part(dh * u, s, dh * d, m);
    lemma_sided_part(dh * u2, s, dh * d2, m);
}

/// The triangle behind the last grid line of a wedge and what the cut
/// leaves of the wedge have the sign of the wedge, or are nothing, where
/// the edge to `b` ends first.
pub proof fn lemma_near_tip_sided(
    ah: int,
    ax: int,
    bh: int,
    bx: int,
    ch: int,
    cx: int,
    h: int,
    px: int,
    qx: int,
)
    requires
        on_the_rise(ah, bh, ch, h, h),
        cross(ah, ax, h, px, bh, bx) == 0,
        cross(ah, ax, h, qx, ch, cx) == 0,
    ensures
        sided(cross(h, qx, h, px, bh, bx), cross(ah, ax, bh, bx, ch, cx)),
        sided(cross(h, qx, bh, bx, ch, cx), cross(ah, ax, bh, bx, ch, cx)),
{
    let s = cross(ah, ax, bh, bx, ch, cx);
    let d = h - ah;
    let u = qx - px;
    let h2 = bh - ah;
    let h3 = ch - ah;
    let m = h2 * h3;
    lemma_wedge_width(ah, ax, bh, bx, ch, cx, h, px, qx);
    assert(m > 0) by (nonlinear_arith)
        requires
            m == h2 * h3,
            (h2 > 0 && h3 > 0) || (h2 < 0 && h3 < 0),
    ;
    assert((h - h) * (bx - qx) == 0) by (nonlinear_arith);
    assert((bh - h) * (px - qx) == -((bh - h) * u)) by (nonlinear_arith)
        requires
            u == qx - px,
    ;
    assert(cross(h, qx, h, px, bh, bx) == (bh - h) * u);
    assert(((bh - h) * u) * m == ((bh - h) * d) * s) by (nonlinear_arith)
        requires
            u * m == d * s,
    ;
    assert((bh - h) * d >= 0) by (nonlinear_arith)
        requires
            (bh - h >= 0 && d > 0) || (bh - h <= 0 && d < 0),
    ;
    lemma_sided_part((bh - h) * u, s, (bh - h) * d, m);
    let rest = cross(h, qx, bh, bx, ch, cx);
    let side = cross(ah, ax, bh, bx, h, qx);
    lemma_cross_parted(ah, ax, bh, bx, ch, cx, h, qx);
    assert(s == rest + side);
    let b = bx - ax;
    let c = cx - ax;
    let q = qx - ax;
    assert(d * c == h3 * q);
    assert(side == h2 * q - d * b);
    assert(side * h3 == d * s) by (nonlinear_arith)
        requires
            side == h2 * q - d * b,
            d * c == h3 * q,
            s == h2 * c - h3 * b,
    ;
    assert(rest * h3 == (h3 - d) * s) by (nonlinear_arith)
        requires
            s == rest + side,
            side * h3 == d * s,
    ;
    if h3 > 0 {
        lemma_sided_part(rest, s, h3 - d, h3);
    } else {
        assert(rest * (-h3) == (d - h3) * s) by (nonlinear_arith)
            requires
                rest * h3 == (h3 - d) * s,
        ;
        lemma_sided_part(rest, s, d - h3, -h3);
    }
}

/// The same where the edge to `c` ends first.
pub proof fn lemma_far_tip_sided(
    ah: int,
    ax: int,
    bh: int,
    bx: int,
    ch: int,
    cx: int,
    h: int,
    px: int,
    qx: int,
)
    requires
        on_the_rise(ah, bh, ch, h, h),
        cross(ah, ax, h, px, bh, bx) == 0,
        cross(ah, ax, h, qx, ch, cx) == 0,
    ensures
        sided(cross(h, qx, h, px, ch, cx), cross(ah, ax, bh, bx, ch, cx)),
        sided(cross(ch, cx, h, px, bh, bx), cross(ah, ax, bh, bx, ch, cx)),
{
    let s = cross(ah, ax, bh, bx, ch, cx);
    let d = h - ah;
    let u = qx - px;
    let h2 = bh - ah;
    let h3 = ch - ah;
    let m = h2 * h3;
    lemma_wedge_width(ah, ax, bh, bx, ch, cx, h, px, qx);
    assert(m > 0) by (nonlinear_arith)
        requires
            m == h2 * h3,
            (h2 > 0 && h3 > 0) || (h2 < 0 && h3 < 0),
    ;
    assert((h - h) * (cx - qx) == 0) by (nonlinear_arith);
    assert((ch - h) * (px - qx) == -((ch - h) * u)) by (nonlinear_arith)
        requires
            u == qx - px,
    ;
    assert(cross(h, qx, h, px, ch, cx) == (ch - h) * u);
    assert(((ch - h) * u) * m == ((ch - h) * d) * s) by (nonlinear_arith)
        requires
            u * m == d * s,
    ;
    assert((ch - h) * d >= 0) by (nonlinear_arith)
        requires
            (ch - h >= 0 && d > 0) || (ch - h <= 0 && d < 0),
    ;
    lemma_sided_part((ch - h) * u, s, (ch - h) * d, m);
    let rest = cross(h, px, bh, bx, ch, cx);
    let side = cross(ah, ax, h, px, ch, cx);
    lemma_cross_parted(ah, ax, bh, bx, ch, cx, h, px);
    lemma_cross_turned(ah, ax, bh, bx, h, px);
    lemma_cross_turned(h, px, bh, bx, ch, cx);
    lemma_cross_turned(bh, bx, ch, cx, h, px);
    assert(s == rest + side);
    assert(cross(ch, cx, h, px, bh, bx) == rest);
    let b = bx - ax;
    let c = cx - ax;
    let p = px - ax;
    assert(d * b == h2 * p);
    assert(side == d * c - h3 * p);
    assert(side * h2 == d * s) by (nonlinear_arith)
        requires
            side == d * c - h3 * p,
            d * b == h2 * p,
            s == h2 * c - h3 * b,
    ;
    assert(rest * h2 == (h2 - d) * s) by (nonlinear_arith)
        requires
            s == rest + side,
            side * h2 == d * s,
    ;
    if h2 > 0 {
        lemma_sided_part(rest, s, h2 - d, h2);
    } else {
        assert(rest * (-h2) == (d - h2) * s) by (nonlinear_arith)
            requires
                rest * h2 == (h2 - d) * s,
        ;
        lemma_sided_part(rest, s, d - h2, -h2);
    }
}

/// The area of a triangle does not depend on the point that it is named
/// from, and changes its sign when the points are named the other way
/// round.
pub proof fn lemma_orient_turned(p: Node, q: Node, r: Node)
    ensures
        orient(p, q, r) == orient(q, r, p),
        orient(p, q, r) == -orient(r, q, p),
{
    let px = p.x as int;
    let py = p.y as int;
    let qx = q.x as int;
    let qy = q.y as int;
    let rx = r.x as int;
    let ry = r.y as int;
    lemma_multiplied_out(qy, py, rx, qx);
    lemma_multiplied_out(qx, px, ry, qy);
    lemma_multiplied_out(ry, qy, px, rx);
    lemma_multiplied_out(rx, qx, py, ry);
    lemma_multiplied_out(qy, ry, px, qx);
    lemma_multiplied_out(qx, rx, py, qy);
    assert((qy - py) * (rx - qx) - (qx - px) * (ry - qy) == (ry - qy) * (px - rx) - (rx - qx) * (py
        - ry));
    assert((qy - py) * (rx - qx) - (qx - px) * (ry - qy) == -((qy - ry) * (px - qx) - (qx - rx) * (
    py - qy)));
}

/// A triangle whose first and last point are the same grid point spans no
/// area.
pub proof fn lemma_orient_closed(p: Node, q: Node, r: Node)
    requires
        same_point(p, r),
    ensures
        orient(p, q, r) == 0,
{
    let dx = q.x - p.x;
    let dy = q.y - p.y;
    assert(dy * (-dx) - dx * (-dy) == 0) by (nonlinear_arith);
    assert((q.y - p.y) * (r.x - q.x) - (q.x - p.x) * (r.y - q.y) == dy * (-dx) - dx * (-dy));
}

/// The product of two bounded numbers is bounded by the product of the
/// bounds.
pub proof fn lemma_product_bound(a: int, b: int, m: int, n: int)
    requires
        -m <= a <= m,
        -n <= b <= n,
    ensures
        -(m * n) <= a * b <= m * n,
{
    assert(-(m * n) <= a * b <= m * n) by (nonlinear_arith)
        requires
            -m <= a <= m,
            -n <= b <= n,
    ;
}

/// A multiple of `d` less a multiple of `d` is a multiple of `d`.
pub proof fn lemma_aligned(a: int, b: int, d: int)
    requires
        d > 0,
        a % d == 0,
    ensures
        (a - b * d) % d == 0,
        (b * d) % d == 0,
{
    vstd::arithmetic::div_mod::lemma_mod_multiples_vanish(-b, a, d);
    vstd::arithmetic::div_mod::lemma_mod_multiples_basic(b, d);
    assert(d * (-b) + a == a - b * d) by (nonlinear_arith);
}

/// The difference of two multiples of `d` is a multiple of `d`.
pub proof fn lemma_aligned_diff(a: int, b: int, d: int)
    requires
        d > 0,
    ensures
        (a * d - b * d) % d == 0,
{
    vstd::arithmetic::div_mod::lemma_mod_multiples_basic(a - b, d);
    assert((a - b) * d == a * d - b * d) by (nonlinear_arith);
}

/// From a multiple of `d` below another it is at least `d` to the other.
pub proof fn lemma_step_aligned(i: int, end: int, d: int)
    requires
        d > 0,
        0 <= i < end,
        i % d == 0,
        end % d == 0,
    ensures
        i + d <= end,
{
    vstd::arithmetic::div_mod::lemma_fundamental_div_mod(i, d);
    vstd::arithmetic::div_mod::lemma_fundamental_div_mod(end, d);
    assert(i / d < end / d) by (nonlinear_arith)
        requires
            d > 0,
            i < end,
            i == d * (i / d),
            end == d * (end / d),
    ;
    assert(d * (i / d) + d <= d * (end / d)) by (nonlinear_arith)
        requires
            d > 0,
            i / d < end / d,
    ;
}

/// Scaling by a positive number keeps the order.
pub proof fn lemma_scaled_order(a: int, b: int, d: int)
    requires
        d > 0,
        a <= b,
    ensures
        a * d <= b * d,
{
    assert(a * d <= b * d) by (nonlinear_arith)
        requires
            d > 0,
            a <= b,
    ;
}

/// The product of two numbers of at most 34 bits.
pub fn mul_small(a: i64, b: i64) -> (r: i128)
    requires
        -0x2_0000_0000 <= a <= 0x2_0000_0000,
        -0x2_0000_0000 <= b <= 0x2_0000_0000,
    ensures
        r == a * b,
        -0x4_0000_0000_0000_0000 <= r <= 0x4_0000_0000_0000_0000,
{
    proof {
        lemma_product_bound(a as int, b as int, 0x2_0000_0000, 0x2_0000_0000);
    }
    (a as i128) * (b as i128)
}

/// The product of a number of at most 70 bits and one of at most 34 bits.
pub fn mul_wide(a: i128, b: i64) -> (r: i128)
    requires
        -0x20_0000_0000_0000_0000 <= a <= 0x20_0000_0000_0000_0000,
        -0x2_0000_0000 <= b <= 0x2_0000_0000,
    ensures
        r == a * b,
        -0x40_0000_0000_0000_0000_0000_0000 <= r <= 0x40_0000_0000_0000_0000_0000_0000,
{
    proof {
        lemma_product_bound(a as int, b as int, 0x20_0000_0000_0000_0000, 0x2_0000_0000);
    }
    a * (b as i128)
}

/// The quotient of `a` by a positive `b`, rounded towards zero.
pub fn div_to_zero(a: i128, b: i128) -> (q: i128)
    requires
        b > 0,
    ensures
        q == quotient(a as int, b as int),
{
    a / b
}

/// The remainder of `x` by a positive `n`, between zero and `n`.
pub fn mod2(x: i64, n: i64) -> (r: i64)
    requires
        n > 0,
        n <= 0x7fff_ffff,
    ensures
        r == x % n,
        0 <= r < n,
{
    let r1: i64 = x % n;
    proof {
        if x < 0 {
            let u = (-x) % (n as int);
            let q = (-x) / (n as int);
            vstd::arithmetic::div_mod::lemma_fundamental_div_mod(-x, n as int);
            if u > 0 {
                assert(x == (-q - 1) * n + (n - u)) by (nonlinear_arith)
                    requires
                        -x == n * q + u,
                ;
                vstd::arithmetic::div_mod::lemma_fundamental_div_mod_converse_mod(
                    x as int,
                    n as int,
                    -q - 1,
                    n - u,
                );
            } else {
                assert(x == (-q) * n + 0) by (nonlinear_arith)
                    requires
                        -x == n * q + u,
                        u == 0,
                ;
                vstd::arithmetic::div_mod::lemma_fundamental_div_mod_converse_mod(
                    x as int,
                    n as int,
                    -q,
                    0,
                );
            }
        }
    }
    if r1 < 0 {
        r1 + n
    } else {
        r1
    }
}

/// Twice the signed area of the triangle `p`, `q`, `r`.
pub fn area(p: &Node, q: &Node, r: &Node) -> (a: i128)
    ensures
        a == orient(*p, *q, *r),
{
    let a1: i128 = mul_small(q.y as i64 - p.y as i64, r.x as i64 - q.x as i64);
    let a2: i128 = mul_small(q.x as i64 - p.x as i64, r.y as i64 - q.y as i64);
    a1 - a2
}

/// The sign of `v`: -1, 0 or 1.
pub fn sign(v: i128) -> (s: i32)
    ensures
        s == sign_of(v as int),
{
    if v > 0 {
        1
    } else if v < 0 {
        -1
    } else {
        0
    }
}

/// Whether two nodes lie on the same grid point.
pub fn equals(p: &Node, q: &Node) -> (e: bool)
    ensures
        e == same_point(*p, *q),
{
    p.x == q.x && p.y == q.y
}

/// For three points on a line, whether `q` lies on the segment from `p` to
/// `r`.
pub fn on_segment(p: &Node, q: &Node, r: &Node) -> (o: bool)
    ensures
        o == in_box(*p, *q, *r),
{
    let max_x: i32 = if p.x >= r.x { p.x } else { r.x };
    let max_y: i32 = if p.y >= r.y { p.y } else { r.y };
    let min_x: i32 = if p.x <= r.x { p.x } else { r.x };
    let min_y: i32 = if p.y <= r.y { p.y } else { r.y };
    q.x <= max_x && q.y <= max_y && q.x >= min_x && q.y >= min_y
}

/// Whether the point `(px, py)` lies in the triangle `a`, `b`, `c`.
pub fn point_in_triangle(
    ax: i128,
    ay: i32,
    bx: i128,
    by: i32,
    cx: i128,
    cy: i32,
    px: i128,
    py: i32,
) -> (inside: bool)
    requires
        -0x8_0000_0000_0000_0000 <= ax <= 0x8_0000_0000_0000_0000,
        -0x8_0000_0000_0000_0000 <= bx <= 0x8_0000_0000_0000_0000,
        -0x8_0000_0000_0000_0000 <= cx <= 0x8_0000_0000_0000_0000,
        -0x8_0000_0000_0000_0000 <= px <= 0x8_0000_0000_0000_0000,
    ensures
        inside == in_triangle(
            ax as int,
            ay as int,
            bx as int,
            by as int,
            cx as int,
            cy as int,
            px as int,
            py as int,
        ),
{
    let ca: i128 = mul_wide(cx - px, ay as i64 - py as i64);
    let ac: i128 = mul_wide(ax - px, cy as i64 - py as i64);
    let ab: i128 = mul_wide(ax - px, by as i64 - py as i64);
    let ba: i128 = mul_wide(bx - px, ay as i64 - py as i64);
    let bc: i128 = mul_wide(bx - px, cy as i64 - py as i64);
    let cb: i128 = mul_wide(cx - px, by as i64 - py as i64);
    ca >= ac && ab >= ba && bc >= cb
}

/// Whether the segment from `a` to `b` and the segment from `c` to `d`
/// have a point in common.
pub fn intersects(a: &Node, b: &Node, c: &Node, d: &Node) -> (m: bool)
    ensures
        m == segments_meet(*a, *b, *c, *d),
{
    let o1: i32 = sign(area(a, b, c));
    let o2: i32 = sign(area(a, b, d));
    let o3: i32 = sign(area(c, d, a));
    let o4: i32 = sign(area(c, d, b));
    (o1 != o2 && o3 != o4) || (o3 == 0 && on_segment(c, a, d)) || (o4 == 0 && on_segment(
        c,
        b,
        d,
    )) || (o2 == 0 && on_segment(a, d, b)) || (o1 == 0 && on_segment(a, c, b))
}

/// Twice the signed area of the ring whose vertices stand between the
/// positions `start` and `end` of `data`, `dim` coordinates each.
pub fn signed_area(data: &[i32], start: usize, end: usize, dim: usize) -> (sum: i128)
    requires
        dim >= 2,
        start <= end <= data.len(),
        (end - start) % (dim as int) == 0,
    ensures
        sum == shoelace(data@, start as int, end as int, dim as int),
        -(end - start) * 0x8000_0000_0000_0000 <= sum <= (end - start) * 0x8000_0000_0000_0000,
{
    if start >= end {
        return 0;
    }
    assert(start + dim <= end) by {
        if start + dim > end {
            assert((end - start) % (dim as int) == end - start) by (nonlinear_arith)
                requires
                    0 < end - start < dim,
            ;
        }
    }
    let mut sum: i128 = 0;
    let mut i: usize = start;
    let mut j: usize = end - dim;
    while i < end
        invariant
            dim >= 2,
            start <= i <= end <= data.len(),
            (end - i) % (dim as int) == 0,
            j + dim <= end,
            -(i - start) * 0x8000_0000_0000_0000 <= sum <= (i - start) * 0x8000_0000_0000_0000,
            sum + shoelace_from(data@, i as int, j as int, end as int, dim as int) == shoelace(
                data@,
                start as int,
                end as int,
                dim as int,
            ),
        decreases end - i,
    {
        assert(i + dim <= end) by {
            if i + dim > end {
                assert((end - i) % (dim as int) == end - i) by (nonlinear_arith)
                    requires
                        0 < end - i < dim,
                ;
            }
        }
        let term: i128 = mul_small(
            data[j] as i64 - data[i] as i64,
            data[i + 1] as i64 + data[j + 1] as i64,
        );
        proof {
            lemma_product_bound(
                data[j as int] - data[i as int],
                data[i + 1] + data[j + 1],
                0xffff_ffff,
                0x1_0000_0000,
            );
            assert((end - (i + dim)) % (dim as int) == 0) by (nonlinear_arith)
                requires
                    (end - i) % (dim as int) == 0,
                    dim > 0,
            ;
        }
        sum = sum + term;
        j = i;
        i = i + dim;
    }
    sum
}

} // verus!
