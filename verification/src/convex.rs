//! Strictly convex polygons. Every corner of such a ring is an ear, and
//! stays one when another corner is cut off, so slicing never has to
//! recover: a ring of `n` vertices gives exactly `n - 2` triangles, and
//! together they have the area that the ring goes round.

use vstd::prelude::*;
use crate::arena::{
    after, before, dummy, inserted, is_ring, lemma_remove_keeps_ring, lemma_ring_fits,
    lemma_ring_turned, lemma_unlinked_links, lemma_unlinked_ok, link_in, links_ok, node_ok,
    ring_link, turned, unlinked, Node,
};
use crate::earcut::{
    blocked_at, ear_free, ear_loop, ear_ok, frame_of, input_ok, lemma_ear_loop_ring,
    lemma_ear_of_a_ring, lemma_triangle_pushed, list_grown, most_new_nodes, sliced,
    triangulated_onto, triangulation, with_triangle, Frame, Pass,
};
use crate::geometry::{
    lemma_multiplied_out, lemma_orient_closed, lemma_orient_turned, orient, same_point, shoelace,
    shoelace_from,
};
use crate::polygon::{magnitude, polygon_area, triangle_area, triangles_area};
use crate::ring::{
    lemma_backward_ring, lemma_forward_ring, lemma_vertex_count, new_nodes, ring_backward,
    on_vertices, ring_built, ring_end, ring_forward, vertex_at, vertex_count,
};
use crate::zlist::lemma_indexed_ring;
use crate::zorder::{
    ear_free_hashed, indexed, lemma_indexed_ok, scan_both, scan_down, scan_up,
};

verus! {

/// Vertices that are linked in, in the buffer's order, get nodes that lie
/// on their points, and no other node moves.
pub proof fn lemma_forward_on_vertices(
    nodes: Seq<Node>,
    data: Seq<i32>,
    i: int,
    end: int,
    dim: int,
    last: Option<usize>,
)
    requires
        links_ok(nodes),
        link_in(last, nodes.len()),
        on_vertices(nodes, data),
        0 <= i,
        end <= usize::MAX,
        nodes.len() + vertex_count(i, end, dim) <= usize::MAX,
    ensures
        on_vertices(ring_forward(nodes, data, i, end, dim, last).0, data),
    decreases vertex_count(i, end, dim),
{
    if i < end && dim > 0 {
        let grown = inserted(nodes, i as usize, data[i], data[i + 1], last);
        assert(grown.len() == nodes.len() + 1);
        if let Some(l) = last {
            assert(node_ok(nodes[l as int], nodes.len()));
        }
        assert(grown[nodes.len() as int].i == i);
        assert(links_ok(grown));
        assert(on_vertices(grown, data));
        lemma_forward_on_vertices(grown, data, i + dim, end, dim, Some(nodes.len() as usize));
    }
}

/// Vertices that are linked in, against the buffer's order, get nodes that
/// lie on their points, and no other node moves.
pub proof fn lemma_backward_on_vertices(
    nodes: Seq<Node>,
    data: Seq<i32>,
    i: int,
    start: int,
    dim: int,
    last: Option<usize>,
)
    requires
        links_ok(nodes),
        link_in(last, nodes.len()),
        on_vertices(nodes, data),
        0 <= start,
        i <= usize::MAX,
        nodes.len() + vertex_count(start, i, dim) <= usize::MAX,
        dim > 0 ==> (i - start) % dim == 0,
    ensures
        on_vertices(ring_backward(nodes, data, i, start, dim, last).0, data),
    decreases (if i >= 0 { i } else { 0 }),
{
    if i > start && i >= dim && dim > 0 {
        let grown = inserted(nodes, (i - dim) as usize, data[i - dim], data[i - dim + 1], last);
        crate::ring::lemma_count_from_the_end(start, i, dim);
        assert(grown.len() == nodes.len() + 1);
        if let Some(l) = last {
            assert(node_ok(nodes[l as int], nodes.len()));
        }
        assert(grown[nodes.len() as int].i == i - dim);
        assert(links_ok(grown));
        assert(on_vertices(grown, data));
        crate::geometry::lemma_aligned(i - start, 1, dim);
        lemma_backward_on_vertices(grown, data, i - dim, start, dim, Some(nodes.len() as usize));
    }
}

/// Twice the signed area of the triangle of the nodes at the positions `i`,
/// `j` and `k` of the ring.
pub open spec fn turn_at(nodes: Seq<Node>, r: Seq<usize>, i: int, j: int, k: int) -> int {
    orient(nodes[r[i] as int], nodes[r[j] as int], nodes[r[k] as int])
}

/// Whether the ring is strictly convex: any three of its nodes, taken in
/// the ring's order, turn the way of an ear.
pub open spec fn convex_ring(nodes: Seq<Node>, r: Seq<usize>) -> bool {
    forall|i: int, j: int, k: int|
        0 <= i < j < k < r.len() ==> #[trigger] turn_at(nodes, r, i, j, k) < 0
}

/// Whether the node `v` turns the way of an ear between the two nodes that
/// it is linked to.
pub open spec fn turns_in(nodes: Seq<Node>, v: int) -> bool {
    orient(nodes[nodes[v].prev_i as int], nodes[v], nodes[nodes[v].next_i as int]) < 0
}

/// Whether every node behind the dummy turns the way of an ear between the
/// two nodes that it is linked to.
pub open spec fn inward(nodes: Seq<Node>) -> bool {
    forall|v: int| 1 <= v < nodes.len() ==> #[trigger] turns_in(nodes, v)
}

/// In a strictly convex ring, three nodes turn the way of an ear from
/// whichever of them the ring's order is taken.
pub proof fn lemma_turn_round(nodes: Seq<Node>, r: Seq<usize>, a: int, b: int, c: int)
    requires
        convex_ring(nodes, r),
        0 <= a < r.len(),
        0 <= b < r.len(),
        0 <= c < r.len(),
        a < b < c || b < c < a || c < a < b,
    ensures
        turn_at(nodes, r, a, b, c) < 0,
{
    let pa = nodes[r[a] as int];
    let pb = nodes[r[b] as int];
    let pc = nodes[r[c] as int];
    if a < b < c {
        assert(turn_at(nodes, r, a, b, c) < 0);
    } else if b < c < a {
        assert(turn_at(nodes, r, b, c, a) < 0);
        lemma_orient_turned(pa, pb, pc);
    } else {
        assert(turn_at(nodes, r, c, a, b) < 0);
        lemma_orient_turned(pc, pa, pb);
    }
}

/// Where every node turns the way of an ear, the search along the z-order
/// list in both directions finds no node in the way.
pub proof fn lemma_scan_both_free(
    nodes: Seq<Node>,
    ear: usize,
    min_z: i32,
    max_z: i32,
    down: Option<usize>,
    up: Option<usize>,
    fuel: nat,
)
    requires
        links_ok(nodes),
        inward(nodes),
        link_in(down, nodes.len()),
        link_in(up, nodes.len()),
    ensures
        scan_both(nodes, ear, min_z, max_z, down, up, fuel) matches Some(ends) && link_in(
            ends.0,
            nodes.len(),
        ) && link_in(ends.1, nodes.len()),
    decreases fuel,
{
    if fuel > 0 && (down matches Some(p) && nodes[p as int].z >= min_z) && (up matches Some(n)
        && nodes[n as int].z <= max_z) {
        let p = down->0;
        let n = up->0;
        assert(turns_in(nodes, p as int));
        assert(turns_in(nodes, n as int));
        assert(node_ok(nodes[p as int], nodes.len()));
        assert(node_ok(nodes[n as int], nodes.len()));
        lemma_scan_both_free(
            nodes,
            ear,
            min_z,
            max_z,
            nodes[p as int].prev_z_i,
            nodes[n as int].next_z_i,
            (fuel - 1) as nat,
        );
    }
}

/// Where every node turns the way of an ear, the search towards lesser
/// keys finds no node in the way.
pub proof fn lemma_scan_down_free(
    nodes: Seq<Node>,
    ear: usize,
    min_z: i32,
    down: Option<usize>,
    fuel: nat,
)
    requires
        links_ok(nodes),
        inward(nodes),
        link_in(down, nodes.len()),
    ensures
        !scan_down(nodes, ear, min_z, down, fuel),
    decreases fuel,
{
    if fuel > 0 && (down matches Some(p) && nodes[p as int].z >= min_z) {
        let p = down->0;
        assert(turns_in(nodes, p as int));
        assert(node_ok(nodes[p as int], nodes.len()));
        lemma_scan_down_free(nodes, ear, min_z, nodes[p as int].prev_z_i, (fuel - 1) as nat);
    }
}

/// Where every node turns the way of an ear, the search towards greater
/// keys finds no node in the way.
pub proof fn lemma_scan_up_free(
    nodes: Seq<Node>,
    ear: usize,
    max_z: i32,
    up: Option<usize>,
    fuel: nat,
)
    requires
        links_ok(nodes),
        inward(nodes),
        link_in(up, nodes.len()),
    ensures
        !scan_up(nodes, ear, max_z, up, fuel),
    decreases fuel,
{
    if fuel > 0 && (up matches Some(n) && nodes[n as int].z <= max_z) {
        let n = up->0;
        assert(turns_in(nodes, n as int));
        assert(node_ok(nodes[n as int], nodes.len()));
        lemma_scan_up_free(nodes, ear, max_z, nodes[n as int].next_z_i, (fuel - 1) as nat);
    }
}

/// Where every node turns the way of an ear, every node of a ring of three
/// or more nodes is an ear, by the test with the z-order list and by the
/// test without it.
pub proof fn lemma_every_corner_is_an_ear(nodes: Seq<Node>, r: Seq<usize>, e: int, f: Frame)
    requires
        links_ok(nodes),
        is_ring(nodes, r),
        r.len() >= 3,
        0 <= e < r.len(),
        inward(nodes),
    ensures
        ear_ok(nodes, r[e], f),
{
    let n = r.len() as int;
    let ear = r[e];
    let b = nodes[ear as int];
    assert(1 <= ear < nodes.len());
    assert(turns_in(nodes, ear as int));
    assert(node_ok(b, nodes.len()));
    if f.size != 0 {
        let a = nodes[b.prev_i as int];
        let c = nodes[b.next_i as int];
        let min_z = crate::zorder::z_key(
            crate::zorder::least(a.x, b.x, c.x),
            crate::zorder::least(a.y, b.y, c.y),
            f.min_x,
            f.min_y,
            f.size,
        );
        let max_z = crate::zorder::z_key(
            crate::zorder::greatest(a.x, b.x, c.x),
            crate::zorder::greatest(a.y, b.y, c.y),
            f.min_x,
            f.min_y,
            f.size,
        );
        lemma_scan_both_free(nodes, ear, min_z, max_z, b.prev_z_i, b.next_z_i, nodes.len());
        let ends = scan_both(nodes, ear, min_z, max_z, b.prev_z_i, b.next_z_i, nodes.len())->0;
        lemma_scan_down_free(nodes, ear, min_z, ends.0, nodes.len());
        lemma_scan_up_free(nodes, ear, max_z, ends.1, nodes.len());
        assert(ear_free_hashed(nodes, ear, f.min_x, f.min_y, f.size));
    } else {
        let s = before(e, n);
        lemma_ring_turned(nodes, r, s);
        let t = turned(r, s);
        assert(t[1] == r[e]);
        lemma_ear_of_a_ring(nodes, t);
        assert(ring_link(nodes, t, 1));
        assert forall|j: int| 3 <= j < t.len() implies !blocked_at(nodes, t, j) by {
            assert(ring_link(nodes, t, j));
            assert(1 <= t[j] < nodes.len());
            assert(turns_in(nodes, t[j] as int));
        }
        assert(ear_free(nodes, ear));
    }
}

/// When a corner of a strictly convex ring of four or more nodes is cut
/// off, the ring that is left is strictly convex, and every node of the
/// arena still turns the way of an ear.
pub proof fn lemma_convex_cut(nodes: Seq<Node>, r: Seq<usize>, e: int)
    requires
        links_ok(nodes),
        is_ring(nodes, r),
        r.len() >= 4,
        0 <= e < r.len(),
        inward(nodes),
        convex_ring(nodes, r),
    ensures
        convex_ring(unlinked(nodes, nodes[r[e] as int].links()), r.remove(e)),
        inward(unlinked(nodes, nodes[r[e] as int].links())),
{
    let n = r.len() as int;
    let node = nodes[r[e] as int];
    let left = unlinked(nodes, node.links());
    let shorter = r.remove(e);
    let pe = before(e, n);
    let ne = after(e, n);
    assert(1 <= r[e] < nodes.len());
    assert(node_ok(node, nodes.len()));
    assert(ring_link(nodes, r, e));
    assert(ring_link(nodes, r, pe));
    assert(ring_link(nodes, r, ne));
    lemma_unlinked_ok(nodes, node.links());
    lemma_unlinked_links(nodes, node.links());
    assert forall|i: int, j: int, k: int| 0 <= i < j < k < shorter.len() implies #[trigger] turn_at(
        left,
        shorter,
        i,
        j,
        k,
    ) < 0 by {
        let i_old = if i < e {
            i
        } else {
            i + 1
        };
        let j_old = if j < e {
            j
        } else {
            j + 1
        };
        let k_old = if k < e {
            k
        } else {
            k + 1
        };
        assert(shorter[i] == r[i_old] && shorter[j] == r[j_old] && shorter[k] == r[k_old]);
        assert(1 <= r[i_old] < nodes.len() && 1 <= r[j_old] < nodes.len() && 1 <= r[k_old]
            < nodes.len());
        assert(turn_at(nodes, r, i_old, j_old, k_old) < 0);
        lemma_same_points_same_turn(
            nodes[r[i_old] as int],
            nodes[r[j_old] as int],
            nodes[r[k_old] as int],
            left[r[i_old] as int],
            left[r[j_old] as int],
            left[r[k_old] as int],
        );
    }
    assert forall|v: int| 1 <= v < left.len() implies #[trigger] turns_in(left, v) by {
        assert(node_ok(nodes[v], nodes.len()));
        let p = nodes[v].prev_i as int;
        let q = nodes[v].next_i as int;
        if v == r[pe] {
            assert(r[pe] != r[ne]) by {
                if pe < ne {
                    assert(r[pe] != r[ne]);
                } else {
                    assert(r[ne] != r[pe]);
                }
            }
            let a = before(pe, n);
            lemma_turn_round(nodes, r, a, pe, ne);
            assert(1 <= r[a] < nodes.len() && 1 <= r[ne] < nodes.len());
            assert(left[v].prev_i == r[a]);
            assert(left[v].next_i == r[ne]);
            lemma_same_points_same_turn(
                nodes[r[a] as int],
                nodes[r[pe] as int],
                nodes[r[ne] as int],
                left[r[a] as int],
                left[v],
                left[r[ne] as int],
            );
        } else if v == r[ne] {
            let c = after(ne, n);
            lemma_turn_round(nodes, r, pe, ne, c);
            assert(1 <= r[c] < nodes.len() && 1 <= r[pe] < nodes.len());
            assert(left[v].prev_i == r[pe]);
            assert(left[v].next_i == r[c]);
            lemma_same_points_same_turn(
                nodes[r[pe] as int],
                nodes[r[ne] as int],
                nodes[r[c] as int],
                left[r[pe] as int],
                left[v],
                left[r[c] as int],
            );
        } else {
            assert(turns_in(nodes, v));
            assert(left[v].prev_i == p && left[v].next_i == q);
            lemma_same_points_same_turn(nodes[p], nodes[v], nodes[q], left[p], left[v], left[q]);
        }
    }
}

/// Triangles of nodes on the same points have the same area.
pub proof fn lemma_same_points_same_turn(a: Node, b: Node, c: Node, d: Node, e: Node, f: Node)
    requires
        a.x == d.x && a.y == d.y,
        b.x == e.x && b.y == e.y,
        c.x == f.x && c.y == f.y,
    ensures
        orient(a, b, c) == orient(d, e, f),
{
}

/// Slicing a strictly convex ring cuts off an ear at every step, whatever
/// the state that it is in: a ring of `n` nodes gives `n - 2` triangles.
pub proof fn lemma_convex_ear_loop(
    nodes: Seq<Node>,
    tris: Seq<usize>,
    r: Seq<usize>,
    e: int,
    stop: usize,
    f: Frame,
    pass: Pass,
    depth: nat,
    cuts: nat,
    steps: nat,
)
    requires
        links_ok(nodes),
        is_ring(nodes, r),
        r.len() >= 2,
        0 <= e < r.len(),
        r.len() >= 3 ==> inward(nodes) && convex_ring(nodes, r),
        cuts + 2 >= r.len(),
    ensures
        ear_loop(nodes, tris, r[e], stop, f, pass, depth, cuts, steps).1.len() == tris.len() + 3 * (
        r.len() - 2),
    decreases r.len(),
{
    let n = r.len() as int;
    let node = nodes[r[e] as int];
    let pe = before(e, n);
    let ne = after(e, n);
    assert(1 <= r[e] < nodes.len());
    assert(node_ok(node, nodes.len()));
    assert(ring_link(nodes, r, e));
    assert(ring_link(nodes, r, ne));
    if n >= 3 {
        assert(r[pe] != r[ne]) by {
            if pe < ne {
                assert(r[pe] != r[ne]);
            } else {
                assert(r[ne] != r[pe]);
            }
        }
        lemma_every_corner_is_an_ear(nodes, r, e, f);
        let left = unlinked(nodes, node.links());
        let shorter = r.remove(e);
        lemma_unlinked_ok(nodes, node.links());
        lemma_remove_keeps_ring(nodes, r, e);
        let j = after(ne, n);
        let at = if j < e {
            j
        } else {
            j - 1
        };
        assert(shorter[at] == r[j]);
        let next = nodes[node.next_i as int].next_i;
        assert(next == r[j]);
        let grown = with_triangle(
            tris,
            nodes[node.prev_i as int].i / f.dim,
            node.i / f.dim,
            nodes[node.next_i as int].i / f.dim,
        );
        lemma_triangle_pushed(
            tris,
            nodes[node.prev_i as int].i / f.dim,
            node.i / f.dim,
            nodes[node.next_i as int].i / f.dim,
        );
        if n >= 4 {
            lemma_convex_cut(nodes, r, e);
        }
        lemma_convex_ear_loop(
            left,
            grown,
            shorter,
            at,
            next,
            f,
            pass,
            depth,
            (cuts - 1) as nat,
            nodes.len(),
        );
        assert(ear_loop(nodes, tris, r[e], stop, f, pass, depth, cuts, steps) == ear_loop(
            left,
            grown,
            next,
            next,
            f,
            pass,
            depth,
            (cuts - 1) as nat,
            nodes.len(),
        ));
    }
}

/// Twice the signed area of the triangle of the vertices `i`, `j` and `k`
/// of the buffer.
pub open spec fn turn(data: Seq<i32>, dim: int, i: int, j: int, k: int) -> int {
    (data[j * dim + 1] - data[i * dim + 1]) * (data[k * dim] - data[j * dim]) - (data[j * dim]
        - data[i * dim]) * (data[k * dim + 1] - data[j * dim + 1])
}

/// Whether any three of the first `n` vertices, taken in the buffer's
/// order, turn the same way: the way of an ear (`inwards`), or the other
/// way.
pub open spec fn all_turn(data: Seq<i32>, dim: int, n: int, inwards: bool) -> bool {
    forall|i: int, j: int, k: int|
        0 <= i < j < k < n ==> (inwards ==> #[trigger] turn(data, dim, i, j, k) < 0) && (!inwards
            ==> turn(data, dim, i, j, k) > 0)
}

/// Whether the buffer holds a strictly convex polygon: three or more
/// vertices, of which any three, in the buffer's order, turn the same way.
pub open spec fn strictly_convex(data: Seq<i32>, dim: int) -> bool {
    let n = data.len() as int / dim;
    &&& n >= 3
    &&& all_turn(data, dim, n, true) || all_turn(data, dim, n, false)
}

/// The shoelace sum of the ring of the vertices from `a` on, of `n`
/// vertices in all.
pub open spec fn closed_from(data: Seq<i32>, a: int, n: int, dim: int) -> int {
    let first = a * dim;
    let last = (n - 1) * dim;
    shoelace_from(data, first + dim, first, last + dim, dim) + (data[last] - data[first]) * (
    data[first + 1] + data[last + 1])
}

/// The ring with one vertex more at its start has the area of the triangle
/// of its first, second and last vertex more.
pub proof fn lemma_closed_step(data: Seq<i32>, a: int, n: int, dim: int)
    requires
        dim > 0,
        0 <= a,
        a + 1 < n,
    ensures
        closed_from(data, a, n, dim) == closed_from(data, a + 1, n, dim) - turn(
            data,
            dim,
            a,
            a + 1,
            n - 1,
        ),
{
    let pa = a * dim;
    let pb = (a + 1) * dim;
    let pl = (n - 1) * dim;
    assert(pb == pa + dim) by (nonlinear_arith)
        requires
            pa == a * dim,
            pb == (a + 1) * dim,
    ;
    assert(pb <= pl) by (nonlinear_arith)
        requires
            pb == (a + 1) * dim,
            pl == (n - 1) * dim,
            a + 1 <= n - 1,
            dim > 0,
    ;
    let ax = data[pa] as int;
    let ay = data[pa + 1] as int;
    let bx = data[pb] as int;
    let by = data[pb + 1] as int;
    let lx = data[pl] as int;
    let ly = data[pl + 1] as int;
    assert(shoelace_from(data, pb, pa, pl + dim, dim) == (ax - bx) * (by + ay) + shoelace_from(
        data,
        pb + dim,
        pb,
        pl + dim,
        dim,
    ));
    lemma_multiplied_out(ax, bx, by, ay);
    lemma_multiplied_out(lx, ax, ay, ly);
    lemma_multiplied_out(lx, bx, by, ly);
    lemma_multiplied_out(by, ay, lx, bx);
    lemma_multiplied_out(bx, ax, ly, by);
    assert((ax - bx) * (by + ay) + (lx - ax) * (ay + ly) == (lx - bx) * (by + ly) - ((by - ay) * (lx
        - bx) - (bx - ax) * (ly - by)));
}

/// The shoelace sum of a ring whose vertices all turn the same way has the
/// sign of that way: positive where they turn the way of an ear.
pub proof fn lemma_closed_sign(data: Seq<i32>, a: int, n: int, dim: int, inwards: bool)
    requires
        dim > 0,
        0 <= a < n,
        all_turn(data, dim, n, inwards),
    ensures
        inwards ==> closed_from(data, a, n, dim) >= 0,
        !inwards ==> closed_from(data, a, n, dim) <= 0,
        a + 2 < n ==> closed_from(data, a, n, dim) != 0,
    decreases n - a,
{
    if a + 1 < n {
        lemma_closed_sign(data, a + 1, n, dim, inwards);
        lemma_closed_step(data, a, n, dim);
        if a + 2 < n {
            assert(turn(data, dim, a, a + 1, n - 1) != 0);
        } else {
            let py = data[(a + 1) * dim + 1] - data[a * dim + 1];
            let px = data[(a + 1) * dim] - data[a * dim];
            assert(py * 0 - px * 0 == 0) by (nonlinear_arith);
            assert(turn(data, dim, a, a + 1, n - 1) == 0);
        }
    } else {
        let last = (n - 1) * dim;
        let s = data[last + 1] + data[last + 1];
        assert(0 * s == 0) by (nonlinear_arith);
        assert(shoelace_from(data, last + dim, last, last + dim, dim) == 0);
    }
}

/// The nodes that were pushed for a strictly convex polygon, in the
/// buffer's order where its vertices turn the way of an ear and against it
/// where they turn the other way, form a strictly convex ring whose last
/// node does not lie on the first.
pub proof fn lemma_convex_ring_built(data: Seq<i32>, dim: int, n: int, built: Seq<Node>, inwards: bool)
    requires
        dim > 0,
        n >= 3,
        links_ok(built),
        built.len() == n + 1,
        built.len() <= usize::MAX,
        is_ring(built, new_nodes(1, n as nat)),
        on_vertices(built, data),
        all_turn(data, dim, n, inwards),
        forall|k: int|
            0 <= k < n ==> #[trigger] vertex_at(built, 1, k) == (if inwards {
                k
            } else {
                n - 1 - k
            }) * dim,
    ensures
        convex_ring(built, new_nodes(1, n as nat)),
        inward(built),
        !same_point(built[n], built[1]),
{
    let r = new_nodes(1, n as nat);
    assert forall|k: int| 0 <= k < n implies {
        let v = if inwards {
            k
        } else {
            n - 1 - k
        };
        &&& r[k] == 1 + k
        &&& (#[trigger] built[1 + k]).x == data[v * dim]
        &&& built[1 + k].y == data[v * dim + 1]
    } by {
        assert(vertex_at(built, 1, k) == built[1 + k].i);
    }
    assert forall|i: int, j: int, k: int| 0 <= i < j < k < n implies #[trigger] turn_at(
        built,
        r,
        i,
        j,
        k,
    ) < 0 by {
        let a = built[1 + i];
        let b = built[1 + j];
        let c = built[1 + k];
        assert(turn_at(built, r, i, j, k) == orient(a, b, c));
        if inwards {
            assert(turn(data, dim, i, j, k) < 0);
            assert(orient(a, b, c) == turn(data, dim, i, j, k));
        } else {
            assert(turn(data, dim, n - 1 - k, n - 1 - j, n - 1 - i) > 0);
            assert(orient(c, b, a) == turn(data, dim, n - 1 - k, n - 1 - j, n - 1 - i));
            lemma_orient_turned(a, b, c);
        }
    }
    assert(convex_ring(built, r));
    assert forall|v: int| 1 <= v < built.len() implies #[trigger] turns_in(built, v) by {
        let k = v - 1;
        assert(ring_link(built, r, k));
        assert(r[k] == v);
        lemma_turn_round(built, r, before(k, n), k, after(k, n));
    }
    assert(turn_at(built, r, 0, 1, n - 1) < 0);
    if same_point(built[n], built[1]) {
        lemma_orient_closed(built[1], built[2], built[n]);
    }
}

/// What the edge from `a` to `b` adds to the shoelace sum of a ring.
pub open spec fn edge(a: Node, b: Node) -> int {
    (a.x - b.x) * (b.y + a.y)
}

/// What the edge from the node `v` to the node behind it adds to the
/// shoelace sum of the ring `r`: nothing, where `v` is no node of the ring.
pub open spec fn live_edge(nodes: Seq<Node>, r: Seq<usize>, v: int) -> int {
    if r.contains(v as usize) {
        edge(nodes[v], nodes[nodes[v].next_i as int])
    } else {
        0
    }
}

/// The shoelace sum of the ring `r`, over those of its nodes that stand
/// before position `m` of the arena: twice the area that they go round,
/// positive for a ring whose nodes turn the way of an ear.
pub open spec fn ring_area(nodes: Seq<Node>, r: Seq<usize>, m: int) -> int
    decreases m,
{
    if m <= 1 {
        0
    } else {
        ring_area(nodes, r, m - 1) + live_edge(nodes, r, m - 1)
    }
}

/// Where the edges of two rings differ at two nodes alone, the shoelace
/// sums differ by what the edges differ by.
pub proof fn lemma_area_moved(
    nodes: Seq<Node>,
    r: Seq<usize>,
    left: Seq<Node>,
    t: Seq<usize>,
    m: int,
    p: int,
    e: int,
    dp: int,
    de: int,
)
    requires
        p != e,
        forall|v: int|
            1 <= v < m && v != p && v != e ==> #[trigger] live_edge(left, t, v) == live_edge(
                nodes,
                r,
                v,
            ),
        1 <= p < m ==> live_edge(left, t, p) == live_edge(nodes, r, p) + dp,
        1 <= e < m ==> live_edge(left, t, e) == live_edge(nodes, r, e) + de,
    ensures
        ring_area(left, t, m) == ring_area(nodes, r, m) + (if 1 <= p < m {
            dp
        } else {
            0
        }) + (if 1 <= e < m {
            de
        } else {
            0
        }),
    decreases m,
{
    if m > 1 {
        lemma_area_moved(nodes, r, left, t, m - 1, p, e, dp, de);
        if m - 1 != p && m - 1 != e {
            assert(live_edge(left, t, m - 1) == live_edge(nodes, r, m - 1));
        }
    }
}

/// When a corner is cut off a ring of three or more nodes, the shoelace sum
/// of the ring changes by the area of the triangle that is cut off.
pub proof fn lemma_area_cut(nodes: Seq<Node>, r: Seq<usize>, e: int)
    requires
        links_ok(nodes),
        nodes.len() <= usize::MAX,
        is_ring(nodes, r),
        r.len() >= 3,
        0 <= e < r.len(),
    ensures
        ({
            let node = nodes[r[e] as int];
            ring_area(unlinked(nodes, node.links()), r.remove(e), nodes.len() as int) == ring_area(
                nodes,
                r,
                nodes.len() as int,
            ) + orient(nodes[node.prev_i as int], node, nodes[node.next_i as int])
        }),
{
    let n = r.len() as int;
    let node = nodes[r[e] as int];
    let left = unlinked(nodes, node.links());
    let shorter = r.remove(e);
    let pe = before(e, n);
    let ne = after(e, n);
    let p = r[pe] as int;
    let q = r[ne] as int;
    let g = r[e] as int;
    assert(1 <= g < nodes.len() && 1 <= p < nodes.len() && 1 <= q < nodes.len());
    assert(node_ok(node, nodes.len()));
    assert(ring_link(nodes, r, e));
    assert(ring_link(nodes, r, pe));
    lemma_unlinked_ok(nodes, node.links());
    lemma_unlinked_links(nodes, node.links());
    assert(p != g) by {
        if pe < e {
            assert(r[pe] != r[e]);
        } else {
            assert(r[e] != r[pe]);
        }
    }
    assert(p != q) by {
        if pe < ne {
            assert(r[pe] != r[ne]);
        } else {
            assert(r[ne] != r[pe]);
        }
    }
    assert forall|k: int| 0 <= k < n && k != e implies r[k] != r[e] by {
        if k < e {
            assert(r[k] != r[e]);
        } else {
            assert(r[e] != r[k]);
        }
    }
    assert forall|v: usize| shorter.contains(v) == (r.contains(v) && v != r[e]) by {
        if shorter.contains(v) {
            let k = choose|k: int| 0 <= k < shorter.len() && shorter[k] == v;
            let k_old = if k < e {
                k
            } else {
                k + 1
            };
            assert(shorter[k] == r[k_old]);
            assert(r.contains(v));
        }
        if r.contains(v) && v != r[e] {
            let k = choose|k: int| 0 <= k < r.len() && r[k] == v;
            let k_new = if k < e {
                k
            } else {
                k - 1
            };
            assert(shorter[k_new] == r[k]);
            assert(shorter.contains(v));
        }
    }
    let dp = edge(nodes[p], nodes[q]) - edge(nodes[p], node);
    let de = -edge(node, nodes[q]);
    assert(r.contains(r[pe]) && r.contains(r[e]));
    assert(live_edge(nodes, r, p) == edge(nodes[p], node));
    assert(live_edge(nodes, r, g) == edge(node, nodes[q]));
    assert(shorter.contains(p as usize));
    assert(!shorter.contains(g as usize));
    assert(left[p].next_i == q);
    assert(live_edge(left, shorter, p) == edge(left[p], left[q]));
    assert(edge(left[p], left[q]) == edge(nodes[p], nodes[q]));
    assert(live_edge(left, shorter, g) == 0);
    assert forall|v: int| 1 <= v < nodes.len() && v != p && v != g implies #[trigger] live_edge(
        left,
        shorter,
        v,
    ) == live_edge(nodes, r, v) by {
        assert(shorter.contains(v as usize) == r.contains(v as usize));
        assert(node_ok(nodes[v], nodes.len()));
        let w = nodes[v].next_i as int;
        assert(left[v].next_i == w);
        assert(left[v].x == nodes[v].x && left[v].y == nodes[v].y);
        assert(left[w].x == nodes[w].x && left[w].y == nodes[w].y);
    }
    lemma_area_moved(nodes, r, left, shorter, nodes.len() as int, p, g, dp, de);
    let px = nodes[p].x as int;
    let py = nodes[p].y as int;
    let ex = node.x as int;
    let ey = node.y as int;
    let qx = nodes[q].x as int;
    let qy = nodes[q].y as int;
    lemma_multiplied_out(px, qx, qy, py);
    lemma_multiplied_out(px, ex, ey, py);
    lemma_multiplied_out(ex, qx, qy, ey);
    lemma_multiplied_out(ey, py, qx, ex);
    lemma_multiplied_out(ex, px, qy, ey);
    assert((px - qx) * (qy + py) - (px - ex) * (ey + py) - (ex - qx) * (qy + ey) == (ey - py) * (qx
        - ex) - (ex - px) * (qy - ey));
    assert(dp + de == orient(nodes[p], node, nodes[q]));
}

/// A ring of two nodes goes round no area.
pub proof fn lemma_area_of_two(nodes: Seq<Node>, r: Seq<usize>)
    requires
        nodes.len() <= usize::MAX,
        is_ring(nodes, r),
        r.len() == 2,
    ensures
        ring_area(nodes, r, nodes.len() as int) == 0,
{
    let none = Seq::<usize>::empty();
    let p = r[0] as int;
    let q = r[1] as int;
    assert(1 <= p < nodes.len() && 1 <= q < nodes.len());
    assert(r[0] != r[1]);
    assert(ring_link(nodes, r, 0));
    assert(ring_link(nodes, r, 1));
    assert(r.contains(r[0]) && r.contains(r[1]));
    assert forall|v: int| 1 <= v < nodes.len() && v != p && v != q implies #[trigger] live_edge(
        nodes,
        r,
        v,
    ) == live_edge(nodes, none, v) by {
        if r.contains(v as usize) {
            let k = choose|k: int| 0 <= k < r.len() && r[k] == v as usize;
            assert(k == 0 || k == 1);
        }
    }
    let dp = edge(nodes[p], nodes[q]);
    let dq = edge(nodes[q], nodes[p]);
    lemma_area_moved(nodes, none, nodes, r, nodes.len() as int, p, q, dp, dq);
    lemma_no_ring_no_area(nodes, nodes.len() as int);
    let px = nodes[p].x as int;
    let py = nodes[p].y as int;
    let qx = nodes[q].x as int;
    let qy = nodes[q].y as int;
    lemma_multiplied_out(px, qx, qy, py);
    lemma_multiplied_out(qx, px, py, qy);
    assert((px - qx) * (qy + py) + (qx - px) * (py + qy) == 0);
}

/// No nodes go round no area.
pub proof fn lemma_no_ring_no_area(nodes: Seq<Node>, m: int)
    ensures
        ring_area(nodes, Seq::<usize>::empty(), m) == 0,
    decreases m,
{
    if m > 1 {
        lemma_no_ring_no_area(nodes, m - 1);
    }
}

/// Whether every node behind the dummy stands for a whole vertex of a
/// buffer with `dim` coordinates per vertex.
pub open spec fn on_whole_vertices(nodes: Seq<Node>, dim: usize) -> bool {
    forall|v: int| 1 <= v < nodes.len() ==> (#[trigger] nodes[v]).i as int % dim as int == 0
}

/// The triangle that is pushed for an ear has the area of the triangle of
/// the three nodes.
pub proof fn lemma_ear_area(data: Seq<i32>, p: Node, e: Node, q: Node, dim: usize)
    requires
        dim > 0,
        p.i as int % dim as int == 0 && p.x == data[p.i as int] && p.y == data[p.i + 1],
        e.i as int % dim as int == 0 && e.x == data[e.i as int] && e.y == data[e.i + 1],
        q.i as int % dim as int == 0 && q.x == data[q.i as int] && q.y == data[q.i + 1],
    ensures
        triangle_area(data, p.i / dim, e.i / dim, q.i / dim, dim) == magnitude(orient(p, e, q)),
{
    let d = dim as int;
    vstd::arithmetic::div_mod::lemma_fundamental_div_mod(p.i as int, d);
    vstd::arithmetic::div_mod::lemma_fundamental_div_mod(e.i as int, d);
    vstd::arithmetic::div_mod::lemma_fundamental_div_mod(q.i as int, d);
    let a = (p.i / dim) as int;
    let b = (e.i / dim) as int;
    let c = (q.i / dim) as int;
    assert(a * d == p.i && b * d == e.i && c * d == q.i) by (nonlinear_arith)
        requires
            p.i == d * a + 0,
            e.i == d * b + 0,
            q.i == d * c + 0,
    ;
    let ax = p.x as int;
    let ay = p.y as int;
    let bx = e.x as int;
    let by = e.y as int;
    let cx = q.x as int;
    let cy = q.y as int;
    lemma_multiplied_out(ax, cx, by, ay);
    lemma_multiplied_out(ax, bx, cy, ay);
    lemma_multiplied_out(by, ay, cx, bx);
    lemma_multiplied_out(bx, ax, cy, by);
    assert((ax - cx) * (by - ay) - (ax - bx) * (cy - ay) == -((by - ay) * (cx - bx) - (bx - ax) * (cy
        - by)));
}

/// The triangles that are cut off a strictly convex ring have the area
/// that the ring goes round.
pub proof fn lemma_convex_ear_loop_area(
    data: Seq<i32>,
    nodes: Seq<Node>,
    tris: Seq<usize>,
    r: Seq<usize>,
    e: int,
    stop: usize,
    f: Frame,
    pass: Pass,
    depth: nat,
    cuts: nat,
    steps: nat,
)
    requires
        links_ok(nodes),
        nodes.len() + most_new_nodes(r.len() as int) <= usize::MAX,
        is_ring(nodes, r),
        r.len() >= 2,
        0 <= e < r.len(),
        r.len() >= 3 ==> inward(nodes) && convex_ring(nodes, r),
        cuts + 2 >= r.len(),
        f.dim > 0,
        on_vertices(nodes, data),
        on_whole_vertices(nodes, f.dim),
    ensures
        triangles_area(
            data,
            ear_loop(nodes, tris, r[e], stop, f, pass, depth, cuts, steps).1,
            f.dim,
            tris.len() as int,
        ) == ring_area(nodes, r, nodes.len() as int),
    decreases r.len(),
{
    let n = r.len() as int;
    let node = nodes[r[e] as int];
    let pe = before(e, n);
    let ne = after(e, n);
    assert(1 <= r[e] < nodes.len());
    assert(1 <= r[pe] < nodes.len() && 1 <= r[ne] < nodes.len());
    assert(node_ok(node, nodes.len()));
    assert(ring_link(nodes, r, e));
    assert(ring_link(nodes, r, ne));
    if n >= 3 {
        assert(r[pe] != r[ne]) by {
            if pe < ne {
                assert(r[pe] != r[ne]);
            } else {
                assert(r[ne] != r[pe]);
            }
        }
        lemma_every_corner_is_an_ear(nodes, r, e, f);
        let left = unlinked(nodes, node.links());
        let shorter = r.remove(e);
        lemma_unlinked_ok(nodes, node.links());
        lemma_unlinked_links(nodes, node.links());
        lemma_remove_keeps_ring(nodes, r, e);
        let j = after(ne, n);
        let at = if j < e {
            j
        } else {
            j - 1
        };
        assert(shorter[at] == r[j]);
        let next = nodes[node.next_i as int].next_i;
        assert(next == r[j]);
        let p = nodes[node.prev_i as int];
        let q = nodes[node.next_i as int];
        let grown = with_triangle(tris, p.i / f.dim, node.i / f.dim, q.i / f.dim);
        lemma_triangle_pushed(tris, p.i / f.dim, node.i / f.dim, q.i / f.dim);
        if n >= 4 {
            lemma_convex_cut(nodes, r, e);
        }
        assert(on_vertices(left, data)) by {
            assert forall|v: int| 1 <= v < left.len() implies (#[trigger] left[v]).x
                == data[left[v].i as int] && left[v].y == data[left[v].i + 1] by {
                assert(left[v].i == nodes[v].i);
                assert(nodes[v].x == data[nodes[v].i as int]);
            }
        }
        assert(on_whole_vertices(left, f.dim)) by {
            assert forall|v: int| 1 <= v < left.len() implies (#[trigger] left[v]).i as int
                % f.dim as int == 0 by {
                assert(left[v].i == nodes[v].i);
                assert(nodes[v].i as int % f.dim as int == 0);
            }
        }
        let done = ear_loop(
            left,
            grown,
            next,
            next,
            f,
            pass,
            depth,
            (cuts - 1) as nat,
            nodes.len(),
        );
        lemma_convex_ear_loop_area(
            data,
            left,
            grown,
            shorter,
            at,
            next,
            f,
            pass,
            depth,
            (cuts - 1) as nat,
            nodes.len(),
        );
        lemma_ear_loop_ring(
            left,
            grown,
            shorter,
            at,
            at,
            f,
            pass,
            depth,
            (cuts - 1) as nat,
            nodes.len(),
        );
        assert(ear_loop(nodes, tris, r[e], stop, f, pass, depth, cuts, steps) == done);
        let out = done.1;
        let from = tris.len() as int;
        assert(list_grown(grown, out));
        assert(out[from] == grown[from] && out[from + 1] == grown[from + 1] && out[from + 2]
            == grown[from + 2]);
        assert(triangles_area(data, out, f.dim, from) == triangle_area(
            data,
            out[from],
            out[from + 1],
            out[from + 2],
            f.dim,
        ) + triangles_area(data, out, f.dim, from + 3));
        assert(p.x == data[p.i as int] && node.x == data[node.i as int] && q.x
            == data[q.i as int]);
        assert(p.i as int % f.dim as int == 0 && node.i as int % f.dim as int == 0 && q.i as int
            % f.dim as int == 0);
        lemma_ear_area(data, p, node, q, f.dim);
        assert(turns_in(nodes, r[e] as int));
        lemma_area_cut(nodes, r, e);
    } else {
        lemma_area_of_two(nodes, r);
        assert(triangles_area(data, tris, f.dim, tris.len() as int) == 0);
    }
}

/// Indexing a strictly convex ring moves no node and changes no ring link:
/// the ring stays strictly convex, and every node still turns the way of
/// an ear.
pub proof fn lemma_indexed_convex(nodes: Seq<Node>, r: Seq<usize>, e: int, f: Frame)
    requires
        links_ok(nodes),
        nodes.len() <= usize::MAX,
        is_ring(nodes, r),
        r.len() >= 3,
        0 <= e < r.len(),
        inward(nodes),
        convex_ring(nodes, r),
    ensures
        ({
            let start = indexed(nodes, r[e], f.min_x, f.min_y, f.size);
            &&& links_ok(start)
            &&& start.len() == nodes.len()
            &&& is_ring(start, r)
            &&& inward(start)
            &&& convex_ring(start, r)
            &&& forall|v: int|
                0 <= v < nodes.len() ==> (#[trigger] start[v]).x == nodes[v].x && start[v].y
                    == nodes[v].y && start[v].i == nodes[v].i && start[v].next_i
                    == nodes[v].next_i
        }),
{
    let n = r.len() as int;
    lemma_ring_fits(nodes, r);
    assert(1 <= r[e] < nodes.len());
    let start = indexed(nodes, r[e], f.min_x, f.min_y, f.size);
    lemma_ring_turned(nodes, r, e);
    lemma_indexed_ok(nodes, r[e], f.min_x, f.min_y, f.size);
    lemma_indexed_ring(nodes, turned(r, e), f.min_x, f.min_y, f.size);
    assert forall|k: int| 0 <= k < n implies #[trigger] ring_link(start, r, k) by {
        assert(ring_link(nodes, r, k));
        assert(1 <= r[k] < nodes.len());
        assert(start[r[k] as int].prev_i == nodes[r[k] as int].prev_i);
    }
    assert(is_ring(start, r));
    assert forall|i: int, j: int, k: int| 0 <= i < j < k < n implies #[trigger] turn_at(
        start,
        r,
        i,
        j,
        k,
    ) < 0 by {
        assert(1 <= r[i] < nodes.len() && 1 <= r[j] < nodes.len() && 1 <= r[k] < nodes.len());
        assert(turn_at(nodes, r, i, j, k) < 0);
        assert(start[r[i] as int].x == nodes[r[i] as int].x);
        assert(start[r[j] as int].x == nodes[r[j] as int].x);
        assert(start[r[k] as int].x == nodes[r[k] as int].x);
        lemma_same_points_same_turn(
            nodes[r[i] as int],
            nodes[r[j] as int],
            nodes[r[k] as int],
            start[r[i] as int],
            start[r[j] as int],
            start[r[k] as int],
        );
    }
    assert forall|v: int| 1 <= v < start.len() implies #[trigger] turns_in(start, v) by {
        assert(node_ok(nodes[v], nodes.len()));
        assert(turns_in(nodes, v));
        let p = nodes[v].prev_i as int;
        let q = nodes[v].next_i as int;
        assert(start[v].prev_i == p && start[v].next_i == q);
        assert(start[p].x == nodes[p].x);
        assert(start[q].x == nodes[q].x);
        lemma_same_points_same_turn(nodes[p], nodes[v], nodes[q], start[p], start[v], start[q]);
    }
    assert forall|v: int| 0 <= v < nodes.len() implies (#[trigger] start[v]).x == nodes[v].x
        && start[v].y == nodes[v].y && start[v].i == nodes[v].i && start[v].next_i
        == nodes[v].next_i by {
        assert(start[v].prev_i == nodes[v].prev_i);
    }
}

/// Slicing a strictly convex ring of `n` nodes, from any of its nodes and
/// in any state, gives `n - 2` triangles, and they have the area that the
/// ring goes round.
pub proof fn lemma_convex_sliced(
    data: Seq<i32>,
    nodes: Seq<Node>,
    tris: Seq<usize>,
    r: Seq<usize>,
    e: int,
    f: Frame,
    pass: Pass,
    depth: nat,
)
    requires
        links_ok(nodes),
        nodes.len() + most_new_nodes(r.len() as int) <= usize::MAX,
        is_ring(nodes, r),
        r.len() >= 3,
        0 <= e < r.len(),
        inward(nodes),
        convex_ring(nodes, r),
        f.dim > 0,
        on_vertices(nodes, data),
        on_whole_vertices(nodes, f.dim),
    ensures
        sliced(nodes, tris, r[e], f, pass, depth).1.len() == tris.len() + 3 * (r.len() - 2),
        triangles_area(data, sliced(nodes, tris, r[e], f, pass, depth).1, f.dim, tris.len() as int)
            == ring_area(nodes, r, nodes.len() as int),
{
    lemma_ring_fits(nodes, r);
    if pass is Fresh && f.size != 0 {
        let start = indexed(nodes, r[e], f.min_x, f.min_y, f.size);
        lemma_indexed_convex(nodes, r, e, f);
        assert(on_vertices(start, data)) by {
            assert forall|v: int| 1 <= v < start.len() implies (#[trigger] start[v]).x
                == data[start[v].i as int] && start[v].y == data[start[v].i + 1] by {
                assert(nodes[v].x == data[nodes[v].i as int]);
            }
        }
        assert(on_whole_vertices(start, f.dim)) by {
            assert forall|v: int| 1 <= v < start.len() implies (#[trigger] start[v]).i as int
                % f.dim as int == 0 by {
                assert(nodes[v].i as int % f.dim as int == 0);
            }
        }
        assert forall|v: int| 1 <= v < nodes.len() implies #[trigger] live_edge(start, r, v)
            == live_edge(nodes, r, v) by {
            assert(node_ok(nodes[v], nodes.len()));
            let w = nodes[v].next_i as int;
            assert(start[v].next_i == w);
            assert(start[w].x == nodes[w].x && start[w].y == nodes[w].y);
        }
        lemma_area_moved(nodes, r, start, r, nodes.len() as int, 0, -1, 0, 0);
        lemma_convex_ear_loop(start, tris, r, e, r[e], f, pass, depth, start.len(), start.len());
        lemma_convex_ear_loop_area(
            data,
            start,
            tris,
            r,
            e,
            r[e],
            f,
            pass,
            depth,
            start.len(),
            start.len(),
        );
    } else {
        lemma_convex_ear_loop(nodes, tris, r, e, r[e], f, pass, depth, nodes.len(), nodes.len());
        lemma_convex_ear_loop_area(
            data,
            nodes,
            tris,
            r,
            e,
            r[e],
            f,
            pass,
            depth,
            nodes.len(),
            nodes.len(),
        );
    }
}

/// What the edge from the vertex at position `j` of the buffer to the
/// vertex at position `i` adds to the shoelace sum.
pub open spec fn term(data: Seq<i32>, i: int, j: int) -> int {
    (data[j] - data[i]) * (data[i + 1] + data[j + 1])
}

/// What the edge from the node `v` adds to the shoelace sum of the ring
/// that was built of the `n` vertices of the buffer, in the buffer's order
/// (`inwards`) or against it.
pub open spec fn built_edge(data: Seq<i32>, dim: int, n: int, v: int, inwards: bool) -> int {
    if inwards {
        if v < n {
            term(data, v * dim, (v - 1) * dim)
        } else {
            term(data, 0, (n - 1) * dim)
        }
    } else {
        if v < n {
            -term(data, (n - v) * dim, (n - v - 1) * dim)
        } else {
            -term(data, 0, (n - 1) * dim)
        }
    }
}

/// The edges of the ring that was built of the vertices of the buffer are
/// the edges of the buffer's ring, each taken the other way where the ring
/// was built against the buffer's order.
pub proof fn lemma_built_edges(data: Seq<i32>, dim: int, n: int, built: Seq<Node>, inwards: bool)
    requires
        dim > 0,
        n >= 2,
        built.len() == n + 1,
        built.len() <= usize::MAX,
        is_ring(built, new_nodes(1, n as nat)),
        on_vertices(built, data),
        forall|k: int|
            0 <= k < n ==> #[trigger] vertex_at(built, 1, k) == (if inwards {
                k
            } else {
                n - 1 - k
            }) * dim,
    ensures
        forall|v: int|
            1 <= v <= n ==> #[trigger] live_edge(built, new_nodes(1, n as nat), v) == built_edge(
                data,
                dim,
                n,
                v,
                inwards,
            ),
{
    let r = new_nodes(1, n as nat);
    assert forall|v: int| 1 <= v <= n implies #[trigger] live_edge(built, r, v) == built_edge(
        data,
        dim,
        n,
        v,
        inwards,
    ) by {
        let k = v - 1;
        let k_next = after(k, n);
        let w = 1 + k_next;
        assert(r[k] == v && r[k_next] == w);
        assert(r.contains(v as usize));
        assert(ring_link(built, r, k));
        assert(built[v].next_i == w);
        assert(vertex_at(built, 1, k) == built[v].i);
        assert(vertex_at(built, 1, k_next) == built[w].i);
        assert(built[v].x == data[built[v].i as int] && built[v].y == data[built[v].i + 1]);
        assert(built[w].x == data[built[w].i as int] && built[w].y == data[built[w].i + 1]);
        let from = built[v].i as int;
        let to = built[w].i as int;
        assert(live_edge(built, r, v) == (data[from] - data[to]) * (data[to + 1] + data[from
            + 1]));
        if inwards {
            assert(from == (v - 1) * dim);
            if v < n {
                assert(to == v * dim);
            } else {
                assert(to == 0 * dim);
            }
        } else {
            assert(from == (n - v) * dim);
            if v < n {
                assert(to == (n - v - 1) * dim);
            } else {
                assert(to == (n - 1) * dim);
                assert(from == 0 * dim);
            }
            let dx = data[from] - data[to];
            let sy = data[to + 1] + data[from + 1];
            assert(dx * sy == -((-dx) * sy)) by (nonlinear_arith);
        }
    }
}

/// The shoelace sum of the buffer from the vertex `i` on is the shoelace
/// sum of the ring that was built in the buffer's order, over the nodes
/// from `i` on but the last.
pub proof fn lemma_built_area_forward(data: Seq<i32>, dim: int, n: int, built: Seq<Node>, i: int)
    requires
        dim > 0,
        1 <= i <= n,
        forall|v: int|
            1 <= v <= n ==> #[trigger] live_edge(built, new_nodes(1, n as nat), v) == built_edge(
                data,
                dim,
                n,
                v,
                true,
            ),
    ensures
        shoelace_from(data, i * dim, (i - 1) * dim, n * dim, dim) + ring_area(
            built,
            new_nodes(1, n as nat),
            i,
        ) == ring_area(built, new_nodes(1, n as nat), n),
    decreases n - i,
{
    let r = new_nodes(1, n as nat);
    if i < n {
        lemma_built_area_forward(data, dim, n, built, i + 1);
        assert(i * dim < n * dim && (i + 1) * dim == i * dim + dim && (i + 1 - 1) * dim == i * dim)
            by (nonlinear_arith)
            requires
                i < n,
                dim > 0,
        ;
        assert(live_edge(built, r, i) == built_edge(data, dim, n, i, true));
        assert(ring_area(built, r, i + 1) == ring_area(built, r, i) + live_edge(built, r, i));
        assert(shoelace_from(data, i * dim, (i - 1) * dim, n * dim, dim) == term(
            data,
            i * dim,
            (i - 1) * dim,
        ) + shoelace_from(data, i * dim + dim, i * dim, n * dim, dim));
    }
}

/// The shoelace sum of the ring that was built against the buffer's order,
/// over the nodes before `m`, is the shoelace sum of the buffer from the
/// vertex that the node before `m` stands for on, taken the other way.
pub proof fn lemma_built_area_backward(data: Seq<i32>, dim: int, n: int, built: Seq<Node>, m: int)
    requires
        dim > 0,
        1 <= m <= n,
        forall|v: int|
            1 <= v <= n ==> #[trigger] live_edge(built, new_nodes(1, n as nat), v) == built_edge(
                data,
                dim,
                n,
                v,
                false,
            ),
    ensures
        ring_area(built, new_nodes(1, n as nat), m) == -shoelace_from(
            data,
            (n - m + 1) * dim,
            (n - m) * dim,
            n * dim,
            dim,
        ),
    decreases m,
{
    let r = new_nodes(1, n as nat);
    if m > 1 {
        let v = m - 1;
        lemma_built_area_backward(data, dim, n, built, v);
        let at = (n - v) * dim;
        assert(at < n * dim && (n - v + 1) * dim == at + dim && (n - v - 1) * dim == at - dim && (n
            - m + 1) * dim == at && (n - m) * dim == at - dim) by (nonlinear_arith)
            requires
                at == (n - v) * dim,
                v == m - 1,
                v >= 1,
                dim > 0,
        ;
        assert(live_edge(built, r, v) == built_edge(data, dim, n, v, false));
        assert(ring_area(built, r, m) == ring_area(built, r, v) + live_edge(built, r, v));
        assert(shoelace_from(data, at, at - dim, n * dim, dim) == term(data, at, at - dim)
            + shoelace_from(data, at + dim, at, n * dim, dim));
    } else {
        assert((n - 1 + 1) * dim == n * dim);
        assert(shoelace_from(data, n * dim, (n - 1) * dim, n * dim, dim) == 0);
    }
}

/// The ring that was built of the vertices of the buffer goes round the
/// area of the buffer's ring, taken the other way where it was built
/// against the buffer's order.
pub proof fn lemma_built_area(data: Seq<i32>, dim: int, n: int, built: Seq<Node>, inwards: bool)
    requires
        dim > 0,
        n >= 2,
        built.len() == n + 1,
        built.len() <= usize::MAX,
        is_ring(built, new_nodes(1, n as nat)),
        on_vertices(built, data),
        forall|k: int|
            0 <= k < n ==> #[trigger] vertex_at(built, 1, k) == (if inwards {
                k
            } else {
                n - 1 - k
            }) * dim,
    ensures
        ring_area(built, new_nodes(1, n as nat), n + 1) == (if inwards {
            shoelace(data, 0, n * dim, dim)
        } else {
            -shoelace(data, 0, n * dim, dim)
        }),
{
    let r = new_nodes(1, n as nat);
    let end = n * dim;
    lemma_built_edges(data, dim, n, built, inwards);
    assert(0 < end && end - dim == (n - 1) * dim && 1 * dim == dim && 0 * dim == 0 && (n - n + 1)
        * dim == dim && (n - n) * dim == 0 && (1 - 1) * dim == 0) by (nonlinear_arith)
        requires
            end == n * dim,
            n >= 2,
            dim > 0,
    ;
    assert(shoelace(data, 0, end, dim) == term(data, 0, end - dim) + shoelace_from(
        data,
        dim,
        0,
        end,
        dim,
    ));
    assert(live_edge(built, r, n) == built_edge(data, dim, n, n, inwards));
    assert(ring_area(built, r, n + 1) == ring_area(built, r, n) + live_edge(built, r, n));
    if inwards {
        lemma_built_area_forward(data, dim, n, built, 1);
        assert(ring_area(built, r, 1) == 0);
    } else {
        lemma_built_area_backward(data, dim, n, built, n);
    }
}

/// A strictly convex polygon of `n` vertices has exactly `n - 2` triangles,
/// and they have the area of the polygon.
pub proof fn lemma_convex_polygon(data: Seq<i32>, dim: usize)
    requires
        input_ok(data, Seq::empty(), dim),
        data.len() <= usize::MAX / 4,
        strictly_convex(data, dim as int),
    ensures
        triangulation(data, Seq::empty(), dim).len() == 3 * (data.len() as int / dim as int - 2),
        triangles_area(data, triangulation(data, Seq::empty(), dim), dim, 0) == polygon_area(
            data,
            Seq::empty(),
            dim,
        ),
{
    let holes = Seq::<usize>::empty();
    let none = Seq::<usize>::empty();
    let d = dim as int;
    let end = data.len() as int;
    let n = end / d;
    let arena = seq![dummy()];
    vstd::arithmetic::div_mod::lemma_fundamental_div_mod(end, d);
    assert(end == n * d && end >= 6 && 2 * n <= end) by (nonlinear_arith)
        requires
            end == d * n + 0,
            n >= 3,
            d >= 2,
    ;
    lemma_vertex_count(end, d);
    assert(vertex_count(0, end, d) == n);
    let inwards = all_turn(data, d, n, true);
    lemma_closed_sign(data, 0, n, d, inwards);
    assert(0 * d == 0 && (n - 1) * d + d == end) by (nonlinear_arith)
        requires
            end == n * d,
    ;
    assert(shoelace(data, 0, end, d) == closed_from(data, 0, n, d));
    let forward = shoelace(data, 0, end, d) > 0;
    assert(forward == inwards);
    let r = new_nodes(1, n as nat);
    assert(none + r =~= r);
    assert(ring_end(none) == None::<usize>);
    assert(links_ok(arena));
    assert(on_vertices(arena, data));
    let up = ring_forward(arena, data, 0, end, d, ring_end(none)).0;
    let down = ring_backward(arena, data, end, 0, d, ring_end(none)).0;
    let linked = if forward {
        up
    } else {
        down
    };
    if forward {
        lemma_forward_ring(arena, data, 0, end, d, none);
        lemma_forward_on_vertices(arena, data, 0, end, d, None);
        assert forall|k: int| 0 <= k < n implies #[trigger] vertex_at(linked, 1, k) == k * d by {
            assert(vertex_at(up, 1, k) == 0 + k * d);
        }
    } else {
        lemma_backward_ring(arena, data, end, 0, d, none);
        lemma_backward_on_vertices(arena, data, end, 0, d, None);
        assert forall|k: int| 0 <= k < n implies #[trigger] vertex_at(linked, 1, k) == (n - 1 - k)
            * d by {
            assert(vertex_at(down, 1, k) == end - (k + 1) * d);
            assert(end - (k + 1) * d == (n - 1 - k) * d) by (nonlinear_arith)
                requires
                    end == n * d,
            ;
        }
    }
    lemma_convex_ring_built(data, d, n, linked, inwards);
    lemma_built_area(data, d, n, linked, inwards);
    assert forall|v: int| 1 <= v < linked.len() implies (#[trigger] linked[v]).i as int % d
        == 0 by {
        let k = v - 1;
        assert(vertex_at(linked, 1, k) == linked[v].i);
        let w = if inwards {
            k
        } else {
            n - 1 - k
        };
        vstd::arithmetic::div_mod::lemma_mod_multiples_basic(w, d);
    }
    assert(on_whole_vertices(linked, dim));
    let o = r[n - 1];
    assert(o == n);
    assert(ring_link(linked, r, n - 1));
    assert(r[0] == 1 && r[n - 2] == n - 1);
    assert(ring_built(arena, data, 0, end, d, true) == (linked, Some(o)));
    let f = frame_of(data, end, dim);
    lemma_convex_sliced(data, linked, none, r, n - 1, f, Pass::Fresh, linked.len());
    assert(triangulated_onto(none, data, holes, dim) == sliced(
        linked,
        none,
        o,
        f,
        Pass::Fresh,
        linked.len(),
    ).1);
    assert(crate::polygon::holes_area(data, holes, d, 0) == 0);
    assert(crate::earcut::outer_end(data, holes, dim) == end);
}

} // verus!
