//! The cut keeps the area. The library holds where each vertex stands along
//! the axis of the cut; where it stands across that axis is the caller's.
//! Whatever whole numbers the caller's positions are, as long as every new
//! vertex lies on the edge that it names, the triangles after the cut have
//! the area of the triangles before it: their signed areas add up to the
//! same, every piece of a triangle has the sign of the triangle, and so
//! their areas add up to the same.

use vstd::prelude::*;
use crate::geometry::{
    cross, lemma_corner_sided, lemma_cross_on_a_line, lemma_cross_parted, lemma_cross_turned,
    lemma_far_tip_sided, lemma_near_tip_sided, lemma_strip_sided, sided,
};
use crate::tesselate::{
    at, before, budget, corner_cut, distance, fanned, keeps, lemma_keeps_chain, lemma_next_lines,
    second_nearer,
    split_at, split_of, stepped, tesselated, tesselated_axis, wedge_at, with_rest, with_vertex,
    Site, Wedge,
};

verus! {

/// Twice the signed area of the triangle `a`, `b`, `c`, for vertices that
/// stand at `across` across the axis.
pub open spec fn area2(sites: Seq<Site>, across: Seq<int>, a: usize, b: usize, c: usize) -> int {
    cross(
        at(sites, a),
        across[a as int],
        at(sites, b),
        across[b as int],
        at(sites, c),
        across[c as int],
    )
}

/// Whether the vertex `v` lies on the line through the ends of the edge
/// that it names.
pub open spec fn on_its_edge(sites: Seq<Site>, across: Seq<int>, v: int) -> bool {
    area2(sites, across, sites[v].from, v as usize, sites[v].to) == 0
}

/// Whether every vertex from `from` on lies on the edge that it names.
pub open spec fn placed(sites: Seq<Site>, across: Seq<int>, from: int) -> bool {
    forall|v: int| from <= v < sites.len() ==> #[trigger] on_its_edge(sites, across, v)
}

/// The sum of the signed areas, doubled, of the triangles of the list from
/// position `i` on.
pub open spec fn area_from(sites: Seq<Site>, across: Seq<int>, indices: Seq<usize>, i: int) -> int
    decreases (if i < indices.len() { indices.len() - i } else { 0 }),
{
    if 0 <= i && i + 3 <= indices.len() {
        area2(sites, across, indices[i], indices[i + 1], indices[i + 2]) + area_from(
            sites,
            across,
            indices,
            i + 3,
        )
    } else {
        0
    }
}

/// The strip between two grid lines, with what was cut off before it, is
/// what is cut off behind it: for the corner `a` and the vertices `p`,
/// `p2` on one edge and `q`, `q2` on the other.
pub proof fn lemma_strip_area(
    sites: Seq<Site>,
    across: Seq<int>,
    a: usize,
    b: usize,
    c: usize,
    p: usize,
    q: usize,
    p2: usize,
    q2: usize,
)
    requires
        at(sites, a) != at(sites, b),
        at(sites, a) != at(sites, c),
        area2(sites, across, a, p, b) == 0,
        area2(sites, across, a, p2, b) == 0,
        area2(sites, across, a, q, c) == 0,
        area2(sites, across, a, q2, c) == 0,
    ensures
        area2(sites, across, q, p, q2) + area2(sites, across, q2, p, p2) + area2(
            sites,
            across,
            a,
            p,
            q,
        ) == area2(sites, across, a, p2, q2),
{
    let (ah, ax) = (at(sites, a), across[a as int]);
    let (bh, bx) = (at(sites, b), across[b as int]);
    let (ch, cx) = (at(sites, c), across[c as int]);
    let (ph, px) = (at(sites, p), across[p as int]);
    let (qh, qx) = (at(sites, q), across[q as int]);
    let (rh, rx) = (at(sites, p2), across[p2 as int]);
    let (sh, sx) = (at(sites, q2), across[q2 as int]);
    lemma_cross_on_a_line(ah, ax, ph, px, rh, rx, bh, bx);
    lemma_cross_on_a_line(ah, ax, qh, qx, sh, sx, ch, cx);
    lemma_cross_parted(ah, ax, rh, rx, sh, sx, ph, px);
    lemma_cross_turned(ah, ax, rh, rx, ph, px);
    lemma_cross_parted(ah, ax, ph, px, sh, sx, qh, qx);
    lemma_cross_turned(ph, px, rh, rx, sh, sx);
    lemma_cross_turned(rh, rx, sh, sx, ph, px);
}

/// The triangle at the corner, the triangle behind the last grid line and
/// what is left of the cut triangle make up the cut triangle, where the
/// edge to `b` ends first.
pub proof fn lemma_near_tip_area(
    sites: Seq<Site>,
    across: Seq<int>,
    a: usize,
    b: usize,
    c: usize,
    p: usize,
    q: usize,
)
    requires
        area2(sites, across, a, p, b) == 0,
        area2(sites, across, a, q, c) == 0,
    ensures
        area2(sites, across, a, p, q) + area2(sites, across, q, p, b) + area2(
            sites,
            across,
            q,
            b,
            c,
        ) == area2(sites, across, a, b, c),
{
    let (ah, ax) = (at(sites, a), across[a as int]);
    let (bh, bx) = (at(sites, b), across[b as int]);
    let (ch, cx) = (at(sites, c), across[c as int]);
    let (ph, px) = (at(sites, p), across[p as int]);
    let (qh, qx) = (at(sites, q), across[q as int]);
    lemma_cross_parted(ah, ax, bh, bx, ch, cx, qh, qx);
    lemma_cross_parted(ah, ax, bh, bx, qh, qx, ph, px);
    lemma_cross_turned(ah, ax, bh, bx, ph, px);
    lemma_cross_turned(ph, px, bh, bx, qh, qx);
    lemma_cross_turned(bh, bx, qh, qx, ph, px);
}

/// The same where the edge to `c` ends first.
pub proof fn lemma_far_tip_area(
    sites: Seq<Site>,
    across: Seq<int>,
    a: usize,
    b: usize,
    c: usize,
    p: usize,
    q: usize,
)
    requires
        area2(sites, across, a, p, b) == 0,
        area2(sites, across, a, q, c) == 0,
    ensures
        area2(sites, across, a, p, q) + area2(sites, across, q, p, c) + area2(
            sites,
            across,
            c,
            p,
            b,
        ) == area2(sites, across, a, b, c),
{
    let (ah, ax) = (at(sites, a), across[a as int]);
    let (bh, bx) = (at(sites, b), across[b as int]);
    let (ch, cx) = (at(sites, c), across[c as int]);
    let (ph, px) = (at(sites, p), across[p as int]);
    let (qh, qx) = (at(sites, q), across[q as int]);
    lemma_cross_parted(ah, ax, bh, bx, ch, cx, ph, px);
    lemma_cross_turned(ah, ax, bh, bx, ph, px);
    lemma_cross_parted(ah, ax, ph, px, ch, cx, qh, qx);
    lemma_cross_turned(ph, px, bh, bx, ch, cx);
    lemma_cross_turned(bh, bx, ch, cx, ph, px);
}

/// Two lists that agree from position `i` on have the same sum there.
pub proof fn lemma_area_same_from(
    sites: Seq<Site>,
    across: Seq<int>,
    first: Seq<usize>,
    second: Seq<usize>,
    i: int,
)
    requires
        first.len() == second.len(),
        forall|j: int| i <= j < first.len() ==> first[j] == second[j],
    ensures
        area_from(sites, across, first, i) == area_from(sites, across, second, i),
    decreases (if i < first.len() { first.len() - i } else { 0 }),
{
    if 0 <= i && i + 3 <= first.len() {
        lemma_area_same_from(sites, across, first, second, i + 3);
    }
}

/// Two lists that differ in the triangle at position `i` alone differ in
/// their sums by what the two triangles differ by.
pub proof fn lemma_area_swapped(
    sites: Seq<Site>,
    across: Seq<int>,
    first: Seq<usize>,
    second: Seq<usize>,
    k: int,
    i: int,
)
    requires
        first.len() == second.len(),
        0 <= k <= i,
        (i - k) % 3 == 0,
        i + 3 <= first.len(),
        forall|j: int| 0 <= j < first.len() && !(i <= j < i + 3) ==> first[j] == second[j],
    ensures
        area_from(sites, across, first, k) - area_from(sites, across, second, k) == area2(
            sites,
            across,
            first[i],
            first[i + 1],
            first[i + 2],
        ) - area2(sites, across, second[i], second[i + 1], second[i + 2]),
    decreases i - k,
{
    if k < i {
        lemma_area_swapped(sites, across, first, second, k + 3, i);
    } else {
        lemma_area_same_from(sites, across, first, second, i + 3);
    }
}

/// Triangles pushed behind a list add their sum to the sum of the list.
pub proof fn lemma_area_appended(
    sites: Seq<Site>,
    across: Seq<int>,
    shorter: Seq<usize>,
    longer: Seq<usize>,
    k: int,
)
    requires
        0 <= k <= shorter.len() <= longer.len(),
        (shorter.len() - k) % 3 == 0,
        forall|j: int| 0 <= j < shorter.len() ==> longer[j] == shorter[j],
    ensures
        area_from(sites, across, longer, k) == area_from(sites, across, shorter, k) + area_from(
            sites,
            across,
            longer,
            shorter.len() as int,
        ),
    decreases shorter.len() - k,
{
    if k < shorter.len() {
        lemma_area_appended(sites, across, shorter, longer, k + 3);
    }
}

/// One triangle pushed behind a list adds its area to the sum of the list.
pub proof fn lemma_area_pushed(
    sites: Seq<Site>,
    across: Seq<int>,
    list: Seq<usize>,
    k: int,
    a: usize,
    b: usize,
    c: usize,
)
    requires
        0 <= k <= list.len(),
        (list.len() - k) % 3 == 0,
    ensures
        area_from(sites, across, list.push(a).push(b).push(c), k) == area_from(
            sites,
            across,
            list,
            k,
        ) + area2(sites, across, a, b, c),
{
    let longer = list.push(a).push(b).push(c);
    lemma_area_appended(sites, across, list, longer, k);
    let n = list.len() as int;
    assert(longer[n] == a && longer[n + 1] == b && longer[n + 2] == c);
    assert(area_from(sites, across, longer, n + 3) == 0);
    assert(area_from(sites, across, longer, n) == area2(sites, across, a, b, c) + area_from(
        sites,
        across,
        longer,
        n + 3,
    ));
}

/// A fan pushes vertices and takes none away.
pub proof fn lemma_fanned_grows(
    vertices: Seq<Site>,
    indices: Seq<usize>,
    up: bool,
    mp: int,
    limit: int,
    w: Wedge,
    i12: usize,
    i13: usize,
    modulo: i32,
)
    ensures
        fanned(vertices, indices, up, mp, limit, w, i12, i13, modulo).0.len() >= vertices.len(),
    decreases (if before(up, mp, limit) { distance(limit, mp) } else { 0 }),
{
    if before(up, mp, limit) && modulo > 0 {
        let vs1 = with_vertex(vertices, w.i1, w.i3, mp);
        let n13 = vertices.len() as usize;
        let vs2 = with_vertex(vs1, w.i1, w.i2, mp);
        let n12 = vs1.len() as usize;
        lemma_fanned_grows(
            vs2,
            indices.push(i13).push(i12).push(n13).push(n13).push(i12).push(n12),
            up,
            stepped(up, mp, modulo),
            limit,
            w,
            n12,
            n13,
            modulo,
        );
    }
}

/// What a fan leaves behind: the buffer keeps its sites and the list its
/// entries, whole triangles between vertices of the buffer are pushed, and
/// the two vertices on the last grid line name the edges of the wedge.
pub open spec fn fan_shape(
    vertices: Seq<Site>,
    indices: Seq<usize>,
    w: Wedge,
    n0: int,
    r: (Seq<Site>, Seq<usize>, usize, usize),
) -> bool {
    &&& keeps(vertices, r.0)
    &&& r.1.len() >= indices.len()
    &&& (r.1.len() - indices.len()) % 3 == 0
    &&& forall|j: int| 0 <= j < indices.len() ==> #[trigger] r.1[j] == indices[j]
    &&& forall|j: int| indices.len() <= j < r.1.len() ==> (#[trigger] r.1[j]) < r.0.len()
    &&& n0 <= r.2 < r.0.len()
    &&& n0 <= r.3 < r.0.len()
    &&& r.0[r.2 as int].from == w.i1
    &&& r.0[r.2 as int].to == w.i2
    &&& r.0[r.3 as int].from == w.i1
    &&& r.0[r.3 as int].to == w.i3
}

/// A fan leaves behind what `fan_shape` says.
pub proof fn lemma_fanned_shape(
    vertices: Seq<Site>,
    indices: Seq<usize>,
    up: bool,
    mp: int,
    limit: int,
    w: Wedge,
    i12: usize,
    i13: usize,
    modulo: i32,
    n0: int,
)
    requires
        n0 <= i12 < vertices.len(),
        n0 <= i13 < vertices.len(),
        vertices[i12 as int].from == w.i1 && vertices[i12 as int].to == w.i2,
        vertices[i13 as int].from == w.i1 && vertices[i13 as int].to == w.i3,
        fanned(vertices, indices, up, mp, limit, w, i12, i13, modulo).0.len() <= usize::MAX,
    ensures
        fan_shape(
            vertices,
            indices,
            w,
            n0,
            fanned(vertices, indices, up, mp, limit, w, i12, i13, modulo),
        ),
    decreases (if before(up, mp, limit) { distance(limit, mp) } else { 0 }),
{
    if before(up, mp, limit) && modulo > 0 {
        let vs1 = with_vertex(vertices, w.i1, w.i3, mp);
        let n13 = vertices.len() as usize;
        let vs2 = with_vertex(vs1, w.i1, w.i2, mp);
        let n12 = vs1.len() as usize;
        let longer = indices.push(i13).push(i12).push(n13).push(n13).push(i12).push(n12);
        let next = stepped(up, mp, modulo);
        lemma_fanned_grows(vs2, longer, up, next, limit, w, n12, n13, modulo);
        lemma_fanned_shape(vs2, longer, up, next, limit, w, n12, n13, modulo, n0);
        let r = fanned(vs2, longer, up, next, limit, w, n12, n13, modulo);
        assert(keeps(vertices, vs2));
        lemma_keeps_chain(vertices, vs2, r.0);
        assert forall|j: int| 0 <= j < indices.len() implies #[trigger] r.1[j] == indices[j] by {
            assert(r.1[j] == longer[j]);
        }
        assert forall|j: int| indices.len() <= j < r.1.len() implies (#[trigger] r.1[j])
            < r.0.len() by {
            if j < longer.len() {
                assert(r.1[j] == longer[j]);
            }
        }
    }
}

/// The triangles that a fan pushes, with the triangle at the corner that
/// was cut off before them, have the area of the triangle between the
/// corner and the last grid line.
pub proof fn lemma_fanned_area(
    all: Seq<Site>,
    across: Seq<int>,
    vertices: Seq<Site>,
    indices: Seq<usize>,
    up: bool,
    mp: int,
    limit: int,
    w: Wedge,
    i12: usize,
    i13: usize,
    modulo: i32,
    from: int,
    n0: int,
)
    requires
        0 <= from <= indices.len(),
        (indices.len() - from) % 3 == 0,
        0 <= n0 <= i12 < vertices.len(),
        n0 <= i13 < vertices.len(),
        w.i1 < vertices.len() && w.i2 < vertices.len() && w.i3 < vertices.len(),
        vertices[i12 as int].from == w.i1 && vertices[i12 as int].to == w.i2,
        vertices[i13 as int].from == w.i1 && vertices[i13 as int].to == w.i3,
        at(vertices, w.i1) != at(vertices, w.i2),
        at(vertices, w.i1) != at(vertices, w.i3),
        keeps(fanned(vertices, indices, up, mp, limit, w, i12, i13, modulo).0, all),
        all.len() <= usize::MAX,
        placed(all, across, n0),
    ensures
        ({
            let r = fanned(vertices, indices, up, mp, limit, w, i12, i13, modulo);
            &&& fan_shape(vertices, indices, w, n0, r)
            &&& area_from(all, across, r.1, from) + area2(all, across, w.i1, i12, i13)
                == area_from(all, across, indices, from) + area2(all, across, w.i1, r.2, r.3)
        }),
    decreases (if before(up, mp, limit) { distance(limit, mp) } else { 0 }),
{
    lemma_fanned_shape(vertices, indices, up, mp, limit, w, i12, i13, modulo, n0);
    if before(up, mp, limit) && modulo > 0 {
        let vs1 = with_vertex(vertices, w.i1, w.i3, mp);
        let n13 = vertices.len() as usize;
        let vs2 = with_vertex(vs1, w.i1, w.i2, mp);
        let n12 = vs1.len() as usize;
        let mid = indices.push(i13).push(i12).push(n13);
        let longer = mid.push(n13).push(i12).push(n12);
        let next = stepped(up, mp, modulo);
        let r = fanned(vs2, longer, up, next, limit, w, n12, n13, modulo);
        lemma_fanned_grows(vs2, longer, up, next, limit, w, n12, n13, modulo);
        assert(at(vs2, w.i1) == at(vertices, w.i1));
        assert(at(vs2, w.i2) == at(vertices, w.i2));
        assert(at(vs2, w.i3) == at(vertices, w.i3));
        lemma_fanned_area(
            all,
            across,
            vs2,
            longer,
            up,
            next,
            limit,
            w,
            n12,
            n13,
            modulo,
            from,
            n0,
        );
        lemma_area_pushed(all, across, indices, from, i13, i12, n13);
        lemma_area_pushed(all, across, mid, from, n13, i12, n12);
        assert(keeps(vs2, r.0));
        assert(all[i12 as int] == vertices[i12 as int]) by {
            assert(r.0[i12 as int] == vs2[i12 as int]);
        }
        assert(all[i13 as int] == vertices[i13 as int]) by {
            assert(r.0[i13 as int] == vs2[i13 as int]);
        }
        assert(all[n12 as int] == vs2[n12 as int]) by {
            assert(r.0[n12 as int] == vs2[n12 as int]);
        }
        assert(all[n13 as int] == vs2[n13 as int]) by {
            assert(r.0[n13 as int] == vs2[n13 as int]);
        }
        assert(all[w.i1 as int] == vertices[w.i1 as int]) by {
            assert(r.0[w.i1 as int] == vs2[w.i1 as int]);
        }
        assert(all[w.i2 as int] == vertices[w.i2 as int]) by {
            assert(r.0[w.i2 as int] == vs2[w.i2 as int]);
        }
        assert(all[w.i3 as int] == vertices[w.i3 as int]) by {
            assert(r.0[w.i3 as int] == vs2[w.i3 as int]);
        }
        assert(on_its_edge(all, across, i12 as int));
        assert(on_its_edge(all, across, i13 as int));
        assert(on_its_edge(all, across, n12 as int));
        assert(on_its_edge(all, across, n13 as int));
        lemma_strip_area(all, across, w.i1, w.i2, w.i3, i12, i13, n12, n13);
    }
}

/// A cut pushes vertices and takes none away.
pub proof fn lemma_split_grows(
    vertices: Seq<Site>,
    indices: Seq<usize>,
    up: bool,
    mp: int,
    w: Wedge,
    modulo: i32,
)
    ensures
        split_at(vertices, indices, up, mp, w, modulo).0.len() >= vertices.len() + 2,
{
    let vs1 = with_vertex(vertices, w.i1, w.i2, mp);
    let i12 = vertices.len() as usize;
    let vs2 = with_vertex(vs1, w.i1, w.i3, mp);
    let i13 = vs1.len() as usize;
    let limit = if second_nearer(up, w) {
        w.v2
    } else {
        w.v3
    };
    lemma_fanned_grows(
        vs2,
        indices.push(w.i1).push(i12).push(i13),
        up,
        stepped(up, mp, modulo),
        limit as int,
        w,
        i12,
        i13,
        modulo,
    );
}

/// What a cut leaves behind: the buffer keeps its sites and the list its
/// entries, whole triangles between vertices of the buffer are pushed, and
/// what is left of the cut triangle lies between vertices of the buffer.
pub open spec fn cut_shape(
    vertices: Seq<Site>,
    indices: Seq<usize>,
    r: (Seq<Site>, Seq<usize>, [usize; 3]),
) -> bool {
    &&& keeps(vertices, r.0)
    &&& r.1.len() >= indices.len()
    &&& (r.1.len() - indices.len()) % 3 == 0
    &&& forall|j: int| 0 <= j < indices.len() ==> #[trigger] r.1[j] == indices[j]
    &&& forall|j: int| indices.len() <= j < r.1.len() ==> (#[trigger] r.1[j]) < r.0.len()
    &&& r.2[0] < r.0.len()
    &&& r.2[1] < r.0.len()
    &&& r.2[2] < r.0.len()
}

/// The triangles that a cut pushes and what it leaves of the cut triangle
/// have the area of the cut triangle.
pub proof fn lemma_split_area(
    all: Seq<Site>,
    across: Seq<int>,
    vertices: Seq<Site>,
    indices: Seq<usize>,
    up: bool,
    mp: int,
    w: Wedge,
    modulo: i32,
)
    requires
        w.i1 < vertices.len() && w.i2 < vertices.len() && w.i3 < vertices.len(),
        at(vertices, w.i1) != at(vertices, w.i2),
        at(vertices, w.i1) != at(vertices, w.i3),
        keeps(split_at(vertices, indices, up, mp, w, modulo).0, all),
        all.len() <= usize::MAX,
        placed(all, across, vertices.len() as int),
    ensures
        ({
            let r = split_at(vertices, indices, up, mp, w, modulo);
            &&& cut_shape(vertices, indices, r)
            &&& area_from(all, across, r.1, indices.len() as int) + area2(
                all,
                across,
                r.2[0],
                r.2[1],
                r.2[2],
            ) == area2(all, across, w.i1, w.i2, w.i3)
        }),
{
    let n0 = vertices.len() as int;
    let from = indices.len() as int;
    let vs1 = with_vertex(vertices, w.i1, w.i2, mp);
    let i12 = vertices.len() as usize;
    let vs2 = with_vertex(vs1, w.i1, w.i3, mp);
    let i13 = vs1.len() as usize;
    let limit = if second_nearer(up, w) {
        w.v2
    } else {
        w.v3
    };
    let first = indices.push(w.i1).push(i12).push(i13);
    let next = stepped(up, mp, modulo);
    let f = fanned(vs2, first, up, next, limit as int, w, i12, i13, modulo);
    let r = split_at(vertices, indices, up, mp, w, modulo);
    lemma_fanned_grows(vs2, first, up, next, limit as int, w, i12, i13, modulo);
    assert(r.0 == f.0);
    assert(at(vs2, w.i1) == at(vertices, w.i1));
    assert(at(vs2, w.i2) == at(vertices, w.i2));
    assert(at(vs2, w.i3) == at(vertices, w.i3));
    lemma_fanned_area(
        all,
        across,
        vs2,
        first,
        up,
        next,
        limit as int,
        w,
        i12,
        i13,
        modulo,
        from,
        n0,
    );
    assert(keeps(vertices, vs2));
    lemma_keeps_chain(vertices, vs2, f.0);
    lemma_area_pushed(all, across, indices, from, w.i1, i12, i13);
    assert(area_from(all, across, indices, from) == 0);
    let last = if second_nearer(up, w) {
        w.i2
    } else {
        w.i3
    };
    lemma_area_pushed(all, across, f.1, from, f.3, f.2, last);
    assert(all[f.2 as int] == f.0[f.2 as int]);
    assert(all[f.3 as int] == f.0[f.3 as int]);
    assert(on_its_edge(all, across, f.2 as int));
    assert(on_its_edge(all, across, f.3 as int));
    if second_nearer(up, w) {
        lemma_near_tip_area(all, across, w.i1, w.i2, w.i3, f.2, f.3);
    } else {
        lemma_far_tip_area(all, across, w.i1, w.i2, w.i3, f.2, f.3);
    }
    assert forall|j: int| 0 <= j < indices.len() implies #[trigger] r.1[j] == indices[j] by {
        assert(f.1[j] == first[j]);
    }
    assert forall|j: int| indices.len() <= j < r.1.len() implies (#[trigger] r.1[j]) < r.0.len() by {
        if j < first.len() {
            assert(f.1[j] == first[j]);
        } else if j < f.1.len() {
            assert(r.1[j] == f.1[j]);
        }
    }
}

/// A triangle that is cut has the area of the triangles that the cut
/// pushes and of what the cut leaves of it, from whichever corner it is
/// cut.
pub proof fn lemma_split_of_area(
    all: Seq<Site>,
    across: Seq<int>,
    vertices: Seq<Site>,
    indices: Seq<usize>,
    i1: usize,
    i2: usize,
    i3: usize,
    modulo: i32,
)
    requires
        i1 < vertices.len() && i2 < vertices.len() && i3 < vertices.len(),
        split_of(vertices, indices, i1, i2, i3, modulo) matches Some(r) && keeps(r.0, all),
        all.len() <= usize::MAX,
        placed(all, across, vertices.len() as int),
    ensures
        ({
            let r = split_of(vertices, indices, i1, i2, i3, modulo)->0;
            &&& cut_shape(vertices, indices, r)
            &&& area_from(all, across, r.1, indices.len() as int) + area2(
                all,
                across,
                r.2[0],
                r.2[1],
                r.2[2],
            ) == area2(all, across, i1, i2, i3)
        }),
{
    let w1 = wedge_at(vertices, i1, i2, i3);
    let w2 = wedge_at(vertices, i2, i3, i1);
    let w3 = wedge_at(vertices, i3, i1, i2);
    let (h1, x1) = (at(all, i1), across[i1 as int]);
    let (h2, x2) = (at(all, i2), across[i2 as int]);
    let (h3, x3) = (at(all, i3), across[i3 as int]);
    lemma_cross_turned(h1, x1, h2, x2, h3, x3);
    lemma_cross_turned(h2, x2, h3, x3, h1, x1);
    match corner_cut(w1.v1, w1.v2, w1.v3, modulo, false) {
        Some((up, mp)) => {
            lemma_split_area(all, across, vertices, indices, up, mp, w1, modulo);
        },
        None => match corner_cut(w2.v1, w2.v2, w2.v3, modulo, true) {
            Some((up, mp)) => {
                lemma_split_area(all, across, vertices, indices, up, mp, w2, modulo);
            },
            None => match corner_cut(w3.v1, w3.v2, w3.v3, modulo, true) {
                Some((up, mp)) => {
                    lemma_split_area(all, across, vertices, indices, up, mp, w3, modulo);
                },
                None => {},
            },
        },
    }
}

/// A cut leaves behind what `cut_shape` says.
pub proof fn lemma_split_shape(
    vertices: Seq<Site>,
    indices: Seq<usize>,
    up: bool,
    mp: int,
    w: Wedge,
    modulo: i32,
)
    requires
        w.i1 < vertices.len() && w.i2 < vertices.len() && w.i3 < vertices.len(),
        split_at(vertices, indices, up, mp, w, modulo).0.len() <= usize::MAX,
    ensures
        cut_shape(vertices, indices, split_at(vertices, indices, up, mp, w, modulo)),
{
    let n0 = vertices.len() as int;
    let vs1 = with_vertex(vertices, w.i1, w.i2, mp);
    let i12 = vertices.len() as usize;
    let vs2 = with_vertex(vs1, w.i1, w.i3, mp);
    let i13 = vs1.len() as usize;
    let limit = if second_nearer(up, w) {
        w.v2
    } else {
        w.v3
    };
    let first = indices.push(w.i1).push(i12).push(i13);
    let next = stepped(up, mp, modulo);
    let f = fanned(vs2, first, up, next, limit as int, w, i12, i13, modulo);
    let r = split_at(vertices, indices, up, mp, w, modulo);
    lemma_fanned_grows(vs2, first, up, next, limit as int, w, i12, i13, modulo);
    assert(r.0 == f.0);
    lemma_fanned_shape(vs2, first, up, next, limit as int, w, i12, i13, modulo, n0);
    assert(keeps(vertices, vs2));
    lemma_keeps_chain(vertices, vs2, f.0);
    assert forall|j: int| 0 <= j < indices.len() implies #[trigger] r.1[j] == indices[j] by {
        assert(f.1[j] == first[j]);
    }
    assert forall|j: int| indices.len() <= j < r.1.len() implies (#[trigger] r.1[j]) < r.0.len() by {
        if j < first.len() {
            assert(f.1[j] == first[j]);
        } else if j < f.1.len() {
            assert(r.1[j] == f.1[j]);
        }
    }
}

/// A cut from whichever corner leaves behind what `cut_shape` says.
pub proof fn lemma_split_of_shape(
    vertices: Seq<Site>,
    indices: Seq<usize>,
    i1: usize,
    i2: usize,
    i3: usize,
    modulo: i32,
)
    requires
        i1 < vertices.len() && i2 < vertices.len() && i3 < vertices.len(),
        split_of(vertices, indices, i1, i2, i3, modulo) matches Some(r) && r.0.len() <= usize::MAX,
    ensures
        cut_shape(vertices, indices, split_of(vertices, indices, i1, i2, i3, modulo)->0),
{
    let w1 = wedge_at(vertices, i1, i2, i3);
    let w2 = wedge_at(vertices, i2, i3, i1);
    let w3 = wedge_at(vertices, i3, i1, i2);
    match corner_cut(w1.v1, w1.v2, w1.v3, modulo, false) {
        Some((up, mp)) => {
            lemma_split_shape(vertices, indices, up, mp, w1, modulo);
        },
        None => match corner_cut(w2.v1, w2.v2, w2.v3, modulo, true) {
            Some((up, mp)) => {
                lemma_split_shape(vertices, indices, up, mp, w2, modulo);
            },
            None => match corner_cut(w3.v1, w3.v2, w3.v3, modulo, true) {
                Some((up, mp)) => {
                    lemma_split_shape(vertices, indices, up, mp, w3, modulo);
                },
                None => {},
            },
        },
    }
}

/// A cut from whichever corner pushes vertices and takes none away.
pub proof fn lemma_split_of_grows(
    vertices: Seq<Site>,
    indices: Seq<usize>,
    i1: usize,
    i2: usize,
    i3: usize,
    modulo: i32,
)
    ensures
        split_of(vertices, indices, i1, i2, i3, modulo) matches Some(r) ==> r.0.len()
            >= vertices.len(),
{
    let w1 = wedge_at(vertices, i1, i2, i3);
    let w2 = wedge_at(vertices, i2, i3, i1);
    let w3 = wedge_at(vertices, i3, i1, i2);
    match corner_cut(w1.v1, w1.v2, w1.v3, modulo, false) {
        Some((up, mp)) => {
            lemma_split_grows(vertices, indices, up, mp, w1, modulo);
        },
        None => match corner_cut(w2.v1, w2.v2, w2.v3, modulo, true) {
            Some((up, mp)) => {
                lemma_split_grows(vertices, indices, up, mp, w2, modulo);
            },
            None => match corner_cut(w3.v1, w3.v2, w3.v3, modulo, true) {
                Some((up, mp)) => {
                    lemma_split_grows(vertices, indices, up, mp, w3, modulo);
                },
                None => {},
            },
        },
    }
}

/// The cut of a mesh pushes vertices and takes none away.
pub proof fn lemma_axis_grows(
    vertices: Seq<Site>,
    indices: Seq<usize>,
    i: int,
    modulo: i32,
    fuel: nat,
)
    ensures
        tesselated_axis(vertices, indices, i, modulo, fuel).0.len() >= vertices.len(),
    decreases fuel,
{
    if fuel > 0 && 0 <= i && i + 3 <= indices.len() {
        let cut = split_of(vertices, indices, indices[i], indices[i + 1], indices[i + 2], modulo);
        lemma_split_of_grows(vertices, indices, indices[i], indices[i + 1], indices[i + 2], modulo);
        match cut {
            Some((vs, ind, rest)) => {
                lemma_axis_grows(vs, with_rest(ind, i, rest), i, modulo, (fuel - 1) as nat);
            },
            None => {
                lemma_axis_grows(vertices, indices, i + 3, modulo, (fuel - 1) as nat);
            },
        }
    }
}

/// The cut of a mesh from position `i` of the list on keeps the sum of the
/// signed areas of its triangles.
#[verifier::rlimit(50)]
pub proof fn lemma_axis_area(
    all: Seq<Site>,
    across: Seq<int>,
    vertices: Seq<Site>,
    indices: Seq<usize>,
    i: int,
    modulo: i32,
    fuel: nat,
)
    requires
        indices.len() % 3 == 0,
        0 <= i,
        i % 3 == 0,
        forall|j: int| 0 <= j < indices.len() ==> (#[trigger] indices[j]) < vertices.len(),
        keeps(tesselated_axis(vertices, indices, i, modulo, fuel).0, all),
        all.len() <= usize::MAX,
        placed(all, across, vertices.len() as int),
    ensures
        keeps(vertices, tesselated_axis(vertices, indices, i, modulo, fuel).0),
        area_from(all, across, tesselated_axis(vertices, indices, i, modulo, fuel).1, 0)
            == area_from(all, across, indices, 0),
    decreases fuel,
{
    if fuel > 0 && 0 <= i && i + 3 <= indices.len() {
        let (a, b, c) = (indices[i], indices[i + 1], indices[i + 2]);
        match split_of(vertices, indices, a, b, c, modulo) {
            Some((vs, ind, rest)) => {
                let list = with_rest(ind, i, rest);
                let r = tesselated_axis(vs, list, i, modulo, (fuel - 1) as nat);
                lemma_axis_grows(vs, list, i, modulo, (fuel - 1) as nat);
                lemma_split_of_shape(vertices, indices, a, b, c, modulo);
                assert forall|j: int| 0 <= j < list.len() implies (#[trigger] list[j]) < vs.len() by {
                    if i <= j < i + 3 {
                    } else if j < indices.len() {
                        assert(ind[j] == indices[j]);
                    } else {
                        assert(list[j] == ind[j]);
                    }
                }
                lemma_axis_area(all, across, vs, list, i, modulo, (fuel - 1) as nat);
                lemma_keeps_chain(vs, r.0, all);
                lemma_keeps_chain(vertices, vs, r.0);
                lemma_split_of_area(all, across, vertices, indices, a, b, c, modulo);
                lemma_area_swapped(all, across, list, ind, 0, i);
                lemma_area_swapped(all, across, indices, indices, 0, i);
                lemma_area_appended(all, across, indices, ind, 0);
                assert(ind[i] == a && ind[i + 1] == b && ind[i + 2] == c);
                assert(list[i] == rest[0] && list[i + 1] == rest[1] && list[i + 2] == rest[2]);
            },
            None => {
                lemma_axis_area(all, across, vertices, indices, i + 3, modulo, (fuel - 1) as nat);
            },
        }
    }
}

/// Sums over a list between vertices that a longer buffer keeps are the
/// same over that buffer.
pub proof fn lemma_area_kept(
    sites: Seq<Site>,
    all: Seq<Site>,
    across: Seq<int>,
    indices: Seq<usize>,
    i: int,
)
    requires
        keeps(sites, all),
        forall|j: int| 0 <= j < indices.len() ==> (#[trigger] indices[j]) < sites.len(),
    ensures
        area_from(all, across, indices, i) == area_from(sites, across, indices, i),
    decreases (if i < indices.len() { indices.len() - i } else { 0 }),
{
    if 0 <= i && i + 3 <= indices.len() {
        lemma_area_kept(sites, all, across, indices, i + 3);
        assert(all[indices[i] as int] == sites[indices[i] as int]);
        assert(all[indices[i + 1] as int] == sites[indices[i + 1] as int]);
        assert(all[indices[i + 2] as int] == sites[indices[i + 2] as int]);
    }
}

/// The cut keeps the area: whatever whole numbers say where the vertices
/// stand across the axis, if every vertex that the cut made lies on the
/// edge that it names, the signed areas of the triangles after the cut add
/// up to the sum of the signed areas of the triangles before it.
pub proof fn lemma_cut_keeps_the_area(
    sites: Seq<Site>,
    indices: Seq<usize>,
    modulo: i32,
    across: Seq<int>,
)
    requires
        indices.len() % 3 == 0,
        forall|j: int| 0 <= j < indices.len() ==> (#[trigger] indices[j]) < sites.len(),
        tesselated(sites, indices, modulo).0.len() <= usize::MAX,
        placed(tesselated(sites, indices, modulo).0, across, sites.len() as int),
    ensures
        keeps(sites, tesselated(sites, indices, modulo).0),
        area_from(
            tesselated(sites, indices, modulo).0,
            across,
            tesselated(sites, indices, modulo).1,
            0,
        ) == area_from(sites, across, indices, 0),
{
    let fuel = budget(sites, indices, 0, modulo as int) as nat;
    let r = tesselated_axis(sites, indices, 0, modulo, fuel);
    assert(keeps(r.0, r.0));
    lemma_axis_area(r.0, across, sites, indices, 0, modulo, fuel);
    lemma_area_kept(sites, r.0, across, indices, 0);
}

/// The size of a number, whatever its sign.
pub open spec fn size_of(x: int) -> int {
    if x >= 0 {
        x
    } else {
        -x
    }
}

/// The sum of the areas, doubled, of the triangles of the list from
/// position `i` on.
pub open spec fn whole_area_from(sites: Seq<Site>, across: Seq<int>, indices: Seq<usize>, i: int) -> int
    decreases (if i < indices.len() { indices.len() - i } else { 0 }),
{
    if 0 <= i && i + 3 <= indices.len() {
        size_of(area2(sites, across, indices[i], indices[i + 1], indices[i + 2])) + whole_area_from(
            sites,
            across,
            indices,
            i + 3,
        )
    } else {
        0
    }
}

/// Twice the signed area of the triangle at position `j` of the list.
pub open spec fn area_at(sites: Seq<Site>, across: Seq<int>, indices: Seq<usize>, j: int) -> int {
    area2(sites, across, indices[j], indices[j + 1], indices[j + 2])
}

/// Whether every triangle of the list from position `from` on has the sign
/// of `s`, or no area.
pub open spec fn sided_from(
    sites: Seq<Site>,
    across: Seq<int>,
    indices: Seq<usize>,
    from: int,
    s: int,
) -> bool {
    forall|j: int|
        from <= j && j + 3 <= indices.len() && (j - from) % 3 == 0 ==> sided(
            #[trigger] area_at(sites, across, indices, j),
            s,
        )
}

/// Triangles that all have one sign have, together, the size of the sum of
/// their signed areas.
pub proof fn lemma_whole_of_sided(
    sites: Seq<Site>,
    across: Seq<int>,
    indices: Seq<usize>,
    from: int,
    s: int,
)
    requires
        0 <= from,
        sided_from(sites, across, indices, from, s),
    ensures
        whole_area_from(sites, across, indices, from) == size_of(
            area_from(sites, across, indices, from),
        ),
        sided(area_from(sites, across, indices, from), s),
    decreases (if from < indices.len() { indices.len() - from } else { 0 }),
{
    if from + 3 <= indices.len() {
        assert(sided(area_at(sites, across, indices, from), s));
        assert forall|j: int|
            from + 3 <= j && j + 3 <= indices.len() && (j - (from + 3)) % 3 == 0 implies sided(
            #[trigger] area_at(sites, across, indices, j),
            s,
        ) by {
            assert((j - from) % 3 == 0);
        }
        lemma_whole_of_sided(sites, across, indices, from + 3, s);
    }
}

/// Two lists that agree from position `i` on have the same area there.
pub proof fn lemma_whole_same_from(
    sites: Seq<Site>,
    across: Seq<int>,
    first: Seq<usize>,
    second: Seq<usize>,
    i: int,
)
    requires
        first.len() == second.len(),
        forall|j: int| i <= j < first.len() ==> first[j] == second[j],
    ensures
        whole_area_from(sites, across, first, i) == whole_area_from(sites, across, second, i),
    decreases (if i < first.len() { first.len() - i } else { 0 }),
{
    if 0 <= i && i + 3 <= first.len() {
        lemma_whole_same_from(sites, across, first, second, i + 3);
    }
}

/// Two lists that differ in the triangle at position `i` alone differ in
/// their areas by what the two triangles differ by.
pub proof fn lemma_whole_swapped(
    sites: Seq<Site>,
    across: Seq<int>,
    first: Seq<usize>,
    second: Seq<usize>,
    k: int,
    i: int,
)
    requires
        first.len() == second.len(),
        0 <= k <= i,
        (i - k) % 3 == 0,
        i + 3 <= first.len(),
        forall|j: int| 0 <= j < first.len() && !(i <= j < i + 3) ==> first[j] == second[j],
    ensures
        whole_area_from(sites, across, first, k) - whole_area_from(sites, across, second, k)
            == size_of(area_at(sites, across, first, i)) - size_of(
            area_at(sites, across, second, i),
        ),
    decreases i - k,
{
    if k < i {
        lemma_whole_swapped(sites, across, first, second, k + 3, i);
    } else {
        lemma_whole_same_from(sites, across, first, second, i + 3);
    }
}

/// Triangles pushed behind a list add their area to the area of the list.
pub proof fn lemma_whole_appended(
    sites: Seq<Site>,
    across: Seq<int>,
    shorter: Seq<usize>,
    longer: Seq<usize>,
    k: int,
)
    requires
        0 <= k <= shorter.len() <= longer.len(),
        (shorter.len() - k) % 3 == 0,
        forall|j: int| 0 <= j < shorter.len() ==> longer[j] == shorter[j],
    ensures
        whole_area_from(sites, across, longer, k) == whole_area_from(sites, across, shorter, k)
            + whole_area_from(sites, across, longer, shorter.len() as int),
    decreases shorter.len() - k,
{
    if k < shorter.len() {
        lemma_whole_appended(sites, across, shorter, longer, k + 3);
    }
}

/// Areas over a list between vertices that a longer buffer keeps are the
/// same over that buffer.
pub proof fn lemma_whole_kept(
    sites: Seq<Site>,
    all: Seq<Site>,
    across: Seq<int>,
    indices: Seq<usize>,
    i: int,
)
    requires
        keeps(sites, all),
        forall|j: int| 0 <= j < indices.len() ==> (#[trigger] indices[j]) < sites.len(),
    ensures
        whole_area_from(all, across, indices, i) == whole_area_from(sites, across, indices, i),
    decreases (if i < indices.len() { indices.len() - i } else { 0 }),
{
    if 0 <= i && i + 3 <= indices.len() {
        lemma_whole_kept(sites, all, across, indices, i + 3);
        assert(all[indices[i] as int] == sites[indices[i] as int]);
        assert(all[indices[i + 1] as int] == sites[indices[i + 1] as int]);
        assert(all[indices[i + 2] as int] == sites[indices[i + 2] as int]);
    }
}

/// Whether the grid line at height `line` lies behind the corner of the
/// wedge and not behind `limit`, which lies behind neither end of the two
/// edges.
pub open spec fn line_ok(vertices: Seq<Site>, up: bool, w: Wedge, line: int, limit: int) -> bool {
    &&& -0x8000_0000 <= limit <= 0x7fff_ffff
    &&& up ==> at(vertices, w.i1) < line <= limit && limit <= at(vertices, w.i2) && limit <= at(
        vertices,
        w.i3,
    )
    &&& !up ==> at(vertices, w.i1) > line >= limit && limit >= at(vertices, w.i2) && limit >= at(
        vertices,
        w.i3,
    )
}

/// The triangles that a fan pushes have the sign of the wedge, or no area.
pub proof fn lemma_fanned_sided(
    all: Seq<Site>,
    across: Seq<int>,
    vertices: Seq<Site>,
    indices: Seq<usize>,
    up: bool,
    mp: int,
    limit: int,
    w: Wedge,
    i12: usize,
    i13: usize,
    modulo: i32,
    n0: int,
)
    requires
        modulo > 0,
        0 <= n0 <= i12 < vertices.len(),
        n0 <= i13 < vertices.len(),
        w.i1 < vertices.len() && w.i2 < vertices.len() && w.i3 < vertices.len(),
        vertices[i12 as int].from == w.i1 && vertices[i12 as int].to == w.i2,
        vertices[i13 as int].from == w.i1 && vertices[i13 as int].to == w.i3,
        at(vertices, i12) == at(vertices, i13),
        mp == stepped(up, at(vertices, i12), modulo),
        line_ok(vertices, up, w, at(vertices, i12), limit),
        keeps(fanned(vertices, indices, up, mp, limit, w, i12, i13, modulo).0, all),
        all.len() <= usize::MAX,
        placed(all, across, n0),
    ensures
        ({
            let r = fanned(vertices, indices, up, mp, limit, w, i12, i13, modulo);
            &&& fan_shape(vertices, indices, w, n0, r)
            &&& sided_from(
                all,
                across,
                r.1,
                indices.len() as int,
                area2(all, across, w.i1, w.i2, w.i3),
            )
            &&& at(r.0, r.2) == at(r.0, r.3)
            &&& line_ok(vertices, up, w, at(r.0, r.2), limit)
        }),
    decreases (if before(up, mp, limit) { distance(limit, mp) } else { 0 }),
{
    lemma_fanned_shape(vertices, indices, up, mp, limit, w, i12, i13, modulo, n0);
    if before(up, mp, limit) && modulo > 0 {
        let s = area2(all, across, w.i1, w.i2, w.i3);
        let vs1 = with_vertex(vertices, w.i1, w.i3, mp);
        let n13 = vertices.len() as usize;
        let vs2 = with_vertex(vs1, w.i1, w.i2, mp);
        let n12 = vs1.len() as usize;
        let mid = indices.push(i13).push(i12).push(n13);
        let longer = mid.push(n13).push(i12).push(n12);
        let next = stepped(up, mp, modulo);
        let r = fanned(vs2, longer, up, next, limit, w, n12, n13, modulo);
        lemma_fanned_grows(vs2, longer, up, next, limit, w, n12, n13, modulo);
        assert(at(vs2, w.i1) == at(vertices, w.i1));
        assert(at(vs2, w.i2) == at(vertices, w.i2));
        assert(at(vs2, w.i3) == at(vertices, w.i3));
        assert(at(vs2, n12) == mp && at(vs2, n13) == mp);
        lemma_fanned_sided(all, across, vs2, longer, up, next, limit, w, n12, n13, modulo, n0);
        assert(keeps(vs2, r.0));
        assert(all[i12 as int] == vertices[i12 as int]) by {
            assert(r.0[i12 as int] == vs2[i12 as int]);
        }
        assert(all[i13 as int] == vertices[i13 as int]) by {
            assert(r.0[i13 as int] == vs2[i13 as int]);
        }
        assert(all[n12 as int] == vs2[n12 as int]) by {
            assert(r.0[n12 as int] == vs2[n12 as int]);
        }
        assert(all[n13 as int] == vs2[n13 as int]) by {
            assert(r.0[n13 as int] == vs2[n13 as int]);
        }
        assert(all[w.i1 as int] == vertices[w.i1 as int]) by {
            assert(r.0[w.i1 as int] == vs2[w.i1 as int]);
        }
        assert(all[w.i2 as int] == vertices[w.i2 as int]) by {
            assert(r.0[w.i2 as int] == vs2[w.i2 as int]);
        }
        assert(all[w.i3 as int] == vertices[w.i3 as int]) by {
            assert(r.0[w.i3 as int] == vs2[w.i3 as int]);
        }
        assert(on_its_edge(all, across, i12 as int));
        assert(on_its_edge(all, across, i13 as int));
        assert(on_its_edge(all, across, n12 as int));
        assert(on_its_edge(all, across, n13 as int));
        lemma_strip_sided(
            at(all, w.i1),
            across[w.i1 as int],
            at(all, w.i2),
            across[w.i2 as int],
            at(all, w.i3),
            across[w.i3 as int],
            at(all, i12),
            across[i12 as int],
            across[i13 as int],
            mp,
            across[n12 as int],
            across[n13 as int],
        );
        let from = indices.len() as int;
        assert forall|j: int|
            from <= j && j + 3 <= r.1.len() && (j - from) % 3 == 0 implies sided(
            #[trigger] area_at(all, across, r.1, j),
            s,
        ) by {
            if j == from {
                assert(r.1[j] == longer[j] && r.1[j + 1] == longer[j + 1] && r.1[j + 2] == longer[j
                    + 2]);
            } else if j == from + 3 {
                assert(r.1[j] == longer[j] && r.1[j + 1] == longer[j + 1] && r.1[j + 2] == longer[j
                    + 2]);
            } else {
                assert(j >= from + 6);
                assert((j - longer.len()) % 3 == 0);
            }
        }
    }
}

/// The triangles that a cut pushes and what it leaves of the cut triangle
/// have the sign of the cut triangle, or no area.
pub proof fn lemma_split_sided(
    all: Seq<Site>,
    across: Seq<int>,
    vertices: Seq<Site>,
    indices: Seq<usize>,
    up: bool,
    mp: int,
    w: Wedge,
    modulo: i32,
)
    requires
        modulo > 0,
        w.i1 < vertices.len() && w.i2 < vertices.len() && w.i3 < vertices.len(),
        w == wedge_at(vertices, w.i1, w.i2, w.i3),
        up ==> w.v1 < mp <= w.v2 && mp <= w.v3,
        !up ==> w.v1 > mp >= w.v2 && mp >= w.v3,
        keeps(split_at(vertices, indices, up, mp, w, modulo).0, all),
        all.len() <= usize::MAX,
        placed(all, across, vertices.len() as int),
    ensures
        ({
            let r = split_at(vertices, indices, up, mp, w, modulo);
            let s = area2(all, across, w.i1, w.i2, w.i3);
            &&& sided_from(all, across, r.1, indices.len() as int, s)
            &&& sided(area2(all, across, r.2[0], r.2[1], r.2[2]), s)
        }),
{
    let n0 = vertices.len() as int;
    let from = indices.len() as int;
    let s = area2(all, across, w.i1, w.i2, w.i3);
    let vs1 = with_vertex(vertices, w.i1, w.i2, mp);
    let i12 = vertices.len() as usize;
    let vs2 = with_vertex(vs1, w.i1, w.i3, mp);
    let i13 = vs1.len() as usize;
    let limit = if second_nearer(up, w) {
        w.v2
    } else {
        w.v3
    };
    let first = indices.push(w.i1).push(i12).push(i13);
    let next = stepped(up, mp, modulo);
    let f = fanned(vs2, first, up, next, limit as int, w, i12, i13, modulo);
    let r = split_at(vertices, indices, up, mp, w, modulo);
    lemma_fanned_grows(vs2, first, up, next, limit as int, w, i12, i13, modulo);
    assert(r.0 == f.0);
    assert(at(vs2, w.i1) == at(vertices, w.i1));
    assert(at(vs2, w.i2) == at(vertices, w.i2));
    assert(at(vs2, w.i3) == at(vertices, w.i3));
    assert(at(vs2, i12) == mp && at(vs2, i13) == mp);
    lemma_fanned_sided(all, across, vs2, first, up, next, limit as int, w, i12, i13, modulo, n0);
    assert(keeps(vertices, vs2));
    lemma_keeps_chain(vertices, vs2, f.0);
    assert(all[i12 as int] == vs2[i12 as int]) by {
        assert(f.0[i12 as int] == vs2[i12 as int]);
    }
    assert(all[i13 as int] == vs2[i13 as int]) by {
        assert(f.0[i13 as int] == vs2[i13 as int]);
    }
    assert(all[f.2 as int] == f.0[f.2 as int]);
    assert(all[f.3 as int] == f.0[f.3 as int]);
    assert(all[w.i1 as int] == vertices[w.i1 as int]) by {
        assert(f.0[w.i1 as int] == vertices[w.i1 as int]);
    }
    assert(all[w.i2 as int] == vertices[w.i2 as int]) by {
        assert(f.0[w.i2 as int] == vertices[w.i2 as int]);
    }
    assert(all[w.i3 as int] == vertices[w.i3 as int]) by {
        assert(f.0[w.i3 as int] == vertices[w.i3 as int]);
    }
    assert(on_its_edge(all, across, i12 as int));
    assert(on_its_edge(all, across, i13 as int));
    assert(on_its_edge(all, across, f.2 as int));
    assert(on_its_edge(all, across, f.3 as int));
    let (ah, ax) = (at(all, w.i1), across[w.i1 as int]);
    let (bh, bx) = (at(all, w.i2), across[w.i2 as int]);
    let (ch, cx) = (at(all, w.i3), across[w.i3 as int]);
    lemma_corner_sided(ah, ax, bh, bx, ch, cx, mp, across[i12 as int], across[i13 as int]);
    let last = at(all, f.2);
    assert(at(all, f.3) == last);
    if second_nearer(up, w) {
        lemma_near_tip_sided(
            ah,
            ax,
            bh,
            bx,
            ch,
            cx,
            last,
            across[f.2 as int],
            across[f.3 as int],
        );
    } else {
        lemma_far_tip_sided(ah, ax, bh, bx, ch, cx, last, across[f.2 as int], across[f.3 as int]);
    }
    assert forall|j: int|
        from <= j && j + 3 <= r.1.len() && (j - from) % 3 == 0 implies sided(
        #[trigger] area_at(all, across, r.1, j),
        s,
    ) by {
        if j == from {
            assert(f.1[j] == first[j] && f.1[j + 1] == first[j + 1] && f.1[j + 2] == first[j + 2]);
            assert(r.1[j] == f.1[j] && r.1[j + 1] == f.1[j + 1] && r.1[j + 2] == f.1[j + 2]);
        } else if j + 3 <= f.1.len() {
            assert(r.1[j] == f.1[j] && r.1[j + 1] == f.1[j + 1] && r.1[j + 2] == f.1[j + 2]);
            assert((j - first.len()) % 3 == 0);
            assert(sided(area_at(all, across, f.1, j), s));
        } else {
            assert((f.1.len() - from) % 3 == 0);
            assert(j == f.1.len());
        }
    }
}

/// A cut from whichever corner pushes and leaves triangles that have the
/// sign of the cut triangle, or no area.
pub proof fn lemma_split_of_sided(
    all: Seq<Site>,
    across: Seq<int>,
    vertices: Seq<Site>,
    indices: Seq<usize>,
    i1: usize,
    i2: usize,
    i3: usize,
    modulo: i32,
)
    requires
        modulo > 0,
        i1 < vertices.len() && i2 < vertices.len() && i3 < vertices.len(),
        split_of(vertices, indices, i1, i2, i3, modulo) matches Some(r) && keeps(r.0, all),
        all.len() <= usize::MAX,
        placed(all, across, vertices.len() as int),
    ensures
        ({
            let r = split_of(vertices, indices, i1, i2, i3, modulo)->0;
            let s = area2(all, across, i1, i2, i3);
            &&& sided_from(all, across, r.1, indices.len() as int, s)
            &&& sided(area2(all, across, r.2[0], r.2[1], r.2[2]), s)
        }),
{
    let w1 = wedge_at(vertices, i1, i2, i3);
    let w2 = wedge_at(vertices, i2, i3, i1);
    let w3 = wedge_at(vertices, i3, i1, i2);
    let (h1, x1) = (at(all, i1), across[i1 as int]);
    let (h2, x2) = (at(all, i2), across[i2 as int]);
    let (h3, x3) = (at(all, i3), across[i3 as int]);
    lemma_cross_turned(h1, x1, h2, x2, h3, x3);
    lemma_cross_turned(h2, x2, h3, x3, h1, x1);
    lemma_next_lines(w1.v1 as int, modulo as int);
    lemma_next_lines(w2.v1 as int, modulo as int);
    lemma_next_lines(w3.v1 as int, modulo as int);
    match corner_cut(w1.v1, w1.v2, w1.v3, modulo, false) {
        Some((up, mp)) => {
            lemma_split_sided(all, across, vertices, indices, up, mp, w1, modulo);
        },
        None => match corner_cut(w2.v1, w2.v2, w2.v3, modulo, true) {
            Some((up, mp)) => {
                lemma_split_sided(all, across, vertices, indices, up, mp, w2, modulo);
            },
            None => match corner_cut(w3.v1, w3.v2, w3.v3, modulo, true) {
                Some((up, mp)) => {
                    lemma_split_sided(all, across, vertices, indices, up, mp, w3, modulo);
                },
                None => {},
            },
        },
    }
}

/// The cut of a mesh from position `i` of the list on keeps the sum of the
/// areas of its triangles.
#[verifier::rlimit(50)]
pub proof fn lemma_axis_whole_area(
    all: Seq<Site>,
    across: Seq<int>,
    vertices: Seq<Site>,
    indices: Seq<usize>,
    i: int,
    modulo: i32,
    fuel: nat,
)
    requires
        modulo > 0,
        indices.len() % 3 == 0,
        0 <= i,
        i % 3 == 0,
        forall|j: int| 0 <= j < indices.len() ==> (#[trigger] indices[j]) < vertices.len(),
        keeps(tesselated_axis(vertices, indices, i, modulo, fuel).0, all),
        all.len() <= usize::MAX,
        placed(all, across, vertices.len() as int),
    ensures
        whole_area_from(all, across, tesselated_axis(vertices, indices, i, modulo, fuel).1, 0)
            == whole_area_from(all, across, indices, 0),
    decreases fuel,
{
    if fuel > 0 && 0 <= i && i + 3 <= indices.len() {
        let (a, b, c) = (indices[i], indices[i + 1], indices[i + 2]);
        match split_of(vertices, indices, a, b, c, modulo) {
            Some((vs, ind, rest)) => {
                let list = with_rest(ind, i, rest);
                let r = tesselated_axis(vs, list, i, modulo, (fuel - 1) as nat);
                let s = area2(all, across, a, b, c);
                lemma_axis_grows(vs, list, i, modulo, (fuel - 1) as nat);
                lemma_split_of_shape(vertices, indices, a, b, c, modulo);
                assert forall|j: int| 0 <= j < list.len() implies (#[trigger] list[j]) < vs.len() by {
                    if i <= j < i + 3 {
                    } else if j < indices.len() {
                        assert(ind[j] == indices[j]);
                    } else {
                        assert(list[j] == ind[j]);
                    }
                }
                lemma_axis_area(all, across, vs, list, i, modulo, (fuel - 1) as nat);
                lemma_keeps_chain(vs, r.0, all);
                lemma_axis_whole_area(all, across, vs, list, i, modulo, (fuel - 1) as nat);
                lemma_split_of_area(all, across, vertices, indices, a, b, c, modulo);
                lemma_split_of_sided(all, across, vertices, indices, a, b, c, modulo);
                lemma_whole_of_sided(all, across, ind, indices.len() as int, s);
                lemma_whole_swapped(all, across, list, ind, 0, i);
                lemma_whole_appended(all, across, indices, ind, 0);
                assert(ind[i] == a && ind[i + 1] == b && ind[i + 2] == c);
                assert(list[i] == rest[0] && list[i + 1] == rest[1] && list[i + 2] == rest[2]);
                assert(area_at(all, across, ind, i) == s);
                assert(area_at(all, across, list, i) == area2(all, across, rest[0], rest[1], rest[2]));
            },
            None => {
                lemma_axis_whole_area(
                    all,
                    across,
                    vertices,
                    indices,
                    i + 3,
                    modulo,
                    (fuel - 1) as nat,
                );
            },
        }
    }
}

/// The cut keeps the area of the mesh: whatever whole numbers say where
/// the vertices stand across the axis, if every vertex that the cut made
/// lies on the edge that it names, the triangles after the cut have,
/// together, the area that the triangles had before it.
pub proof fn lemma_cut_keeps_the_whole_area(
    sites: Seq<Site>,
    indices: Seq<usize>,
    modulo: i32,
    across: Seq<int>,
)
    requires
        modulo > 0,
        indices.len() % 3 == 0,
        forall|j: int| 0 <= j < indices.len() ==> (#[trigger] indices[j]) < sites.len(),
        tesselated(sites, indices, modulo).0.len() <= usize::MAX,
        placed(tesselated(sites, indices, modulo).0, across, sites.len() as int),
    ensures
        whole_area_from(
            tesselated(sites, indices, modulo).0,
            across,
            tesselated(sites, indices, modulo).1,
            0,
        ) == whole_area_from(sites, across, indices, 0),
{
    let fuel = budget(sites, indices, 0, modulo as int) as nat;
    let r = tesselated_axis(sites, indices, 0, modulo, fuel);
    assert(keeps(r.0, r.0));
    lemma_axis_area(r.0, across, sites, indices, 0, modulo, fuel);
    lemma_axis_whole_area(r.0, across, sites, indices, 0, modulo, fuel);
    lemma_whole_kept(sites, r.0, across, indices, 0);
}

} // verus!
