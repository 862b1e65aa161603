//! Ear slicing: ears are cut off the ring one by one. Where no ear is left
//! the ring is filtered, then cured of small self-intersections, then split
//! in two along a diagonal, and slicing starts again on what remains.
//!
//! Every search round a ring is cut off after as many steps as the arena
//! has nodes, every series of cuts after as many cuts, and splits are
//! nested no deeper than the arena had nodes when slicing began.

use vstd::prelude::*;
use crate::arena::{
    after, before, bridged, dummy, is_ring, lemma_bridge_splits_ring, lemma_bridged_links,
    lemma_bridged_ok, lemma_other_ring_kept, lemma_outside_chain, lemma_remove_keeps_ring,
    lemma_ring_fits, lemma_ring_turned, lemma_turned_same_nodes, lemma_unlinked_ok,
    lemma_unlinked_outside, links_ok, outside_kept, remove_node, ring_link, same_vertices,
    split_polygon, turned, unlinked, vertices_below, vertices_kept, Node,
};
use crate::convex::{lemma_convex_polygon, strictly_convex};
use crate::holes::{eliminate_holes, holes_eliminated, holes_ok};
use crate::polygon::{polygon_area, triangles_area};
use crate::geometry::{
    area, equals, intersects, lemma_orient_flat, orient, same_point, segments_meet,
};
use crate::ring::{
    diagonal_valid, filter_points, filtered, is_valid_diagonal, leaves_inward,
    lemma_built_ring_is_circular, lemma_filter_walk, lemma_vertex_count, linked_list, vertex_at,
    locally_inside, new_nodes, ring_built, ring_left, vertex_count,
};
use crate::zlist::{
    blocked_above, blocked_below, lemma_distinct_fits, lemma_indexed_ring, lemma_scan_both,
    list_at, sorted_list, z_back, z_link,
};
use crate::zorder::{
    blocks, ear_free_hashed, greatest, in_frame, in_the_way, index_curve, indexed, is_ear_hashed,
    least, lemma_indexed_ok, lemma_key_order, z_blocks, z_key,
};

verus! {

/// How far the recovery from a ring without ears has gone.
#[derive(Clone, Copy, Debug)]
pub enum Pass {
    /// Nothing was tried yet.
    Fresh,
    /// The ring was filtered.
    Filtered,
    /// The ring was filtered again and cured of local intersections.
    Cured,
}

/// What stays the same through one triangulation: the number of
/// coordinates per vertex, and the box that the z-order keys are scaled to.
/// A `size` of zero says that the rings are not indexed.
#[derive(Clone, Copy, Debug)]
pub struct Frame {
    /// The number of coordinates per vertex.
    pub dim: usize,
    /// The least x of the outer ring.
    pub min_x: i32,
    /// The least y of the outer ring.
    pub min_y: i32,
    /// The longer side of the box of the outer ring, or zero.
    pub size: i64,
}

/// The number of recovery steps that are left after `pass`.
pub open spec fn steps_left(pass: Pass) -> nat {
    match pass {
        Pass::Fresh => 2,
        Pass::Filtered => 1,
        Pass::Cured => 0,
    }
}

/// Whether a node stands in the way of cutting the ear at `ear` among those
/// on the walk from `p` to the ear's predecessor, where `prev` is the node
/// before `p`.
pub open spec fn blocked_from(nodes: Seq<Node>, ear: usize, prev: usize, p: usize, fuel: nat) -> bool
    decreases fuel,
{
    let b = nodes[ear as int];
    fuel > 0 && p != b.prev_i && (blocks(
        nodes[b.prev_i as int],
        b,
        nodes[b.next_i as int],
        nodes[prev as int],
        nodes[p as int],
        nodes[nodes[p as int].next_i as int],
    ) || blocked_from(nodes, ear, p, nodes[p as int].next_i, (fuel - 1) as nat))
}

/// Whether the node `ear` can be cut off: the ring is convex at it, and no
/// other node of the ring at which the ring is not convex lies in the
/// triangle that the node forms with its neighbours.
pub open spec fn ear_free(nodes: Seq<Node>, ear: usize) -> bool {
    let b = nodes[ear as int];
    let a = nodes[b.prev_i as int];
    let c = nodes[b.next_i as int];
    &&& orient(a, b, c) < 0
    &&& !blocked_from(nodes, ear, nodes[c.next_i as int].prev_i, c.next_i, nodes.len())
}

/// Whether the node at position `j` of the ring `r` stands in the way of
/// cutting the ear at its position 1.
pub open spec fn blocked_at(nodes: Seq<Node>, r: Seq<usize>, j: int) -> bool {
    blocks(
        nodes[r[0] as int],
        nodes[r[1] as int],
        nodes[r[2] as int],
        nodes[r[j - 1] as int],
        nodes[r[j] as int],
        nodes[r[after(j, r.len() as int)] as int],
    )
}

/// On a ring, the walk that looks for nodes in the way of an ear looks at
/// every node from position `j` on.
pub proof fn lemma_blocked_walk(nodes: Seq<Node>, r: Seq<usize>, j: int, fuel: nat)
    requires
        is_ring(nodes, r),
        r.len() >= 3,
        3 <= j <= r.len(),
        fuel >= r.len() - j,
    ensures
        blocked_from(nodes, r[1], r[j - 1], r[after(j - 1, r.len() as int)], fuel) == exists|i: int|
            j <= i < r.len() && blocked_at(nodes, r, i),
    decreases r.len() - j,
{
    let n = r.len() as int;
    assert(ring_link(nodes, r, 1));
    assert(1 <= r[0] < nodes.len() && 1 <= r[1] < nodes.len() && 1 <= r[2] < nodes.len());
    if j < n {
        assert(r[0] != r[j]);
        assert(ring_link(nodes, r, j));
        lemma_blocked_walk(nodes, r, j + 1, (fuel - 1) as nat);
        if blocked_at(nodes, r, j) {
        } else if exists|i: int| j + 1 <= i < n && blocked_at(nodes, r, i) {
            let i = choose|i: int| j + 1 <= i < n && blocked_at(nodes, r, i);
            assert(j <= i < n && blocked_at(nodes, r, i));
        } else {
            assert forall|i: int| j <= i < n implies !blocked_at(nodes, r, i) by {
                if i > j {
                    assert(!(j + 1 <= i < n && blocked_at(nodes, r, i)));
                }
            }
        }
    }
}

/// On a ring of three or more nodes, the node at position 1 can be cut off
/// if and only if the ring is convex at it and no node of the ring but the
/// node itself and its two neighbours stands in the way: none lies in the
/// triangle at which the ring is not convex.
pub proof fn lemma_ear_of_a_ring(nodes: Seq<Node>, r: Seq<usize>)
    requires
        is_ring(nodes, r),
        r.len() >= 3,
    ensures
        ear_free(nodes, r[1]) == (orient(nodes[r[0] as int], nodes[r[1] as int], nodes[r[2] as int])
            < 0 && forall|j: int| 3 <= j < r.len() ==> !blocked_at(nodes, r, j)),
{
    let n = r.len() as int;
    lemma_ring_fits(nodes, r);
    assert(ring_link(nodes, r, 1));
    assert(ring_link(nodes, r, 2));
    assert(ring_link(nodes, r, after(2, n)));
    assert(1 <= r[0] < nodes.len() && 1 <= r[1] < nodes.len() && 1 <= r[2] < nodes.len());
    lemma_blocked_walk(nodes, r, 3, nodes.len());
}

/// Whether every node of the ring lies in the frame and has the key of its
/// point.
pub open spec fn keys_ok(nodes: Seq<Node>, r: Seq<usize>, min_x: i32, min_y: i32, size: i64) -> bool {
    forall|k: int|
        0 <= k < r.len() ==> in_frame(
            nodes[#[trigger] r[k] as int].x,
            nodes[r[k] as int].y,
            min_x,
            min_y,
            size,
        ) && nodes[r[k] as int].z == z_key(
            nodes[r[k] as int].x,
            nodes[r[k] as int].y,
            min_x,
            min_y,
            size,
        )
}

/// On a ring of three or more nodes that is indexed, so that its nodes lie
/// in the frame, have their keys and form the z-order list by ascending
/// key, the test by the z-order list and the test by a walk round the ring
/// agree.
pub proof fn lemma_hashed_ear_of_a_ring(
    nodes: Seq<Node>,
    r: Seq<usize>,
    l: Seq<usize>,
    min_x: i32,
    min_y: i32,
    size: i64,
)
    requires
        is_ring(nodes, r),
        r.len() >= 3,
        sorted_list(nodes, l, r),
        size > 0,
        keys_ok(nodes, r, min_x, min_y, size),
    ensures
        ear_free_hashed(nodes, r[1], min_x, min_y, size) == ear_free(nodes, r[1]),
{
    broadcast use vstd::seq_lib::group_to_multiset_ensures;

    let n = r.len() as int;
    let ear = r[1];
    let b = nodes[ear as int];
    let a = nodes[r[0] as int];
    let c = nodes[r[2] as int];
    assert(ring_link(nodes, r, 1));
    assert(1 <= r[0] < nodes.len() && 1 <= r[1] < nodes.len() && 1 <= r[2] < nodes.len());
    lemma_ear_of_a_ring(nodes, r);
    assert(r.contains(r[1]));
    assert(l.contains(ear)) by {
        assert(r.to_multiset().count(ear) > 0);
        assert(l.to_multiset().count(ear) > 0);
    }
    let e = choose|e: int| 0 <= e < l.len() && l[e] == ear;
    assert(z_back(nodes, l, e));
    assert(z_link(nodes, l, e, None));
    assert(b.prev_z_i == list_at(l, e - 1));
    assert(b.next_z_i == list_at(l, e + 1));
    lemma_distinct_fits(nodes, l);
    let x0 = least(a.x, b.x, c.x);
    let y0 = least(a.y, b.y, c.y);
    let x1 = greatest(a.x, b.x, c.x);
    let y1 = greatest(a.y, b.y, c.y);
    let min_z = z_key(x0, y0, min_x, min_y, size);
    let max_z = z_key(x1, y1, min_x, min_y, size);
    lemma_scan_both(nodes, l, ear, min_z, max_z, e - 1, e + 1, nodes.len());
    let blocked_list = blocked_below(nodes, l, ear, min_z, e - 1) || blocked_above(
        nodes,
        l,
        ear,
        max_z,
        e + 1,
    );
    let blocked_ring = exists|j: int| 3 <= j < n && blocked_at(nodes, r, j);
    assert(in_frame(a.x, a.y, min_x, min_y, size));
    assert(in_frame(b.x, b.y, min_x, min_y, size));
    assert(in_frame(c.x, c.y, min_x, min_y, size));
    if blocked_list {
        let i = if blocked_below(nodes, l, ear, min_z, e - 1) {
            choose|i: int|
                0 <= i <= e - 1 && i < l.len() && nodes[l[i] as int].z >= min_z && z_blocks(
                    nodes,
                    ear,
                    l[i],
                )
        } else {
            choose|i: int|
                0 <= e + 1 <= i < l.len() && nodes[l[i] as int].z <= max_z && z_blocks(
                    nodes,
                    ear,
                    l[i],
                )
        };
        let q = l[i];
        assert(z_blocks(nodes, ear, q));
        assert(l.contains(q));
        assert(r.contains(q)) by {
            assert(l.to_multiset().count(q) > 0);
            assert(r.to_multiset().count(q) > 0);
        }
        let j = choose|j: int| 0 <= j < n && r[j] == q;
        assert(l[i] != l[e]) by {
            if i < e {
            } else {
            }
        }
        assert(j >= 3);
        assert(ring_link(nodes, r, j));
        assert(blocked_at(nodes, r, j));
    }
    if blocked_ring {
        let j = choose|j: int| 3 <= j < n && blocked_at(nodes, r, j);
        let q = r[j];
        assert(ring_link(nodes, r, j));
        assert(r[0] != r[j] && r[2] != r[j] && r[1] != r[j]);
        assert(z_blocks(nodes, ear, q));
        assert(r.contains(q));
        assert(l.contains(q)) by {
            assert(r.to_multiset().count(q) > 0);
            assert(l.to_multiset().count(q) > 0);
        }
        let i = choose|i: int| 0 <= i < l.len() && l[i] == q;
        let node = nodes[q as int];
        assert(in_frame(node.x, node.y, min_x, min_y, size));
        lemma_key_order(x0, y0, node.x, node.y, min_x, min_y, size);
        lemma_key_order(node.x, node.y, x1, y1, min_x, min_y, size);
        if i < e {
            assert(blocked_below(nodes, l, ear, min_z, e - 1));
        } else {
            assert(i > e);
            assert(blocked_above(nodes, l, ear, max_z, e + 1));
        }
    }
    assert(blocked_list == blocked_ring);
    assert((forall|j: int| 3 <= j < n ==> !blocked_at(nodes, r, j)) == !blocked_ring);
}

/// Whether the node `ear` can be cut off, by the test that the frame asks
/// for.
pub open spec fn ear_ok(nodes: Seq<Node>, ear: usize, f: Frame) -> bool {
    if f.size != 0 {
        ear_free_hashed(nodes, ear, f.min_x, f.min_y, f.size)
    } else {
        ear_free(nodes, ear)
    }
}

/// The triangle list with one more triangle.
pub open spec fn with_triangle(tris: Seq<usize>, a: usize, b: usize, c: usize) -> Seq<usize> {
    tris.push(a).push(b).push(c)
}

/// Whether every entry of the triangle list is a vertex number below `n`.
pub open spec fn entries_below(tris: Seq<usize>, n: int) -> bool {
    forall|t: int| 0 <= t < tris.len() ==> (#[trigger] tris[t]) < n
}

/// Whether the list holds whole triangles between the first `n` vertices.
pub open spec fn whole_triangles(tris: Seq<usize>, n: int) -> bool {
    entries_below(tris, n) && tris.len() % 3 == 0
}

/// Whether the arena and the triangle list speak of the first `n` vertices
/// of the buffer alone, and the list holds whole triangles.
pub open spec fn bounded(nodes: Seq<Node>, tris: Seq<usize>, dim: usize, n: int) -> bool {
    &&& vertices_below(nodes, n * dim)
    &&& entries_below(tris, n)
    &&& tris.len() % 3 == 0
}

/// Whether every node of the arena stands for one of the first `n` vertices
/// of the buffer.
pub open spec fn arena_below(nodes: Seq<Node>, dim: usize, n: int) -> bool {
    vertices_below(nodes, n * dim)
}

/// Whether every entry of the triangle list from position `from` on is a
/// vertex number below `n`.
pub open spec fn entries_from(tris: Seq<usize>, from: int, n: int) -> bool {
    forall|t: int| from <= t < tris.len() ==> (#[trigger] tris[t]) < n
}

/// Whether a step brought in no vertex from beyond the ones that the arena
/// held, whatever the triangle list held: the list kept its entries and
/// grew by whole triangles, and whatever bounds the vertices of the arena
/// before the step bounds them after it, and bounds every number that was
/// pushed.
pub open spec fn bound_kept(
    nodes0: Seq<Node>,
    tris0: Seq<usize>,
    nodes1: Seq<Node>,
    tris1: Seq<usize>,
    dim: usize,
) -> bool {
    &&& list_grown(tris0, tris1)
    &&& forall|n: int| #[trigger]
        arena_below(nodes0, dim, n) ==> arena_below(nodes1, dim, n) && entries_from(
            tris1,
            tris0.len() as int,
            n,
        )
}

/// A step that brought in no vertex from beyond keeps the arena and the
/// list within the first `n` vertices, and the list in whole triangles.
pub proof fn lemma_bound_step(
    nodes0: Seq<Node>,
    tris0: Seq<usize>,
    nodes1: Seq<Node>,
    tris1: Seq<usize>,
    dim: usize,
    n: int,
)
    requires
        bound_kept(nodes0, tris0, nodes1, tris1, dim),
        bounded(nodes0, tris0, dim, n),
    ensures
        bounded(nodes1, tris1, dim, n),
{
    assert(arena_below(nodes0, dim, n));
    assert forall|t: int| 0 <= t < tris1.len() implies (#[trigger] tris1[t]) < n by {
        if t < tris0.len() {
            assert(tris1[t] == tris0[t]);
        }
    }
}

/// Two steps that each bring in no vertex from beyond bring in none
/// together.
pub proof fn lemma_bound_chain(
    nodes0: Seq<Node>,
    tris0: Seq<usize>,
    nodes1: Seq<Node>,
    tris1: Seq<usize>,
    nodes2: Seq<Node>,
    tris2: Seq<usize>,
    dim: usize,
)
    requires
        bound_kept(nodes0, tris0, nodes1, tris1, dim),
        bound_kept(nodes1, tris1, nodes2, tris2, dim),
    ensures
        bound_kept(nodes0, tris0, nodes2, tris2, dim),
{
    assert forall|j: int| 0 <= j < tris0.len() implies #[trigger] tris2[j] == tris0[j] by {
        assert(tris1[j] == tris0[j]);
    }
    assert forall|n: int| #[trigger] arena_below(nodes0, dim, n) implies arena_below(
        nodes2,
        dim,
        n,
    ) && entries_from(tris2, tris0.len() as int, n) by {
        assert(arena_below(nodes1, dim, n));
        assert forall|t: int| tris0.len() <= t < tris2.len() implies (#[trigger] tris2[t]) < n by {
            if t < tris1.len() {
                assert(tris2[t] == tris1[t]);
            }
        }
    }
}

/// A step on the arena that brings in no vertex from beyond, behind a step
/// on the arena and the triangle list that brings in none, brings in none.
pub proof fn lemma_bound_nodes(
    nodes0: Seq<Node>,
    tris0: Seq<usize>,
    nodes1: Seq<Node>,
    tris1: Seq<usize>,
    nodes2: Seq<Node>,
    dim: usize,
)
    requires
        bound_kept(nodes0, tris0, nodes1, tris1, dim),
        vertices_kept(nodes1, nodes2),
    ensures
        bound_kept(nodes0, tris0, nodes2, tris1, dim),
{
    assert forall|n: int| #[trigger] arena_below(nodes0, dim, n) implies arena_below(
        nodes2,
        dim,
        n,
    ) && entries_from(tris1, tris0.len() as int, n) by {
        assert(arena_below(nodes1, dim, n));
        assert(vertices_below(nodes1, n * dim));
    }
}

/// A vertex whose first coordinate stands below position `n * dim` has a
/// number below `n`.
pub proof fn lemma_number_below(i: usize, dim: usize, n: int)
    requires
        dim >= 1,
        i < n * dim,
    ensures
        i / dim < n,
{
    vstd::arithmetic::div_mod::lemma_fundamental_div_mod(i as int, dim as int);
    let q = i as int / dim as int;
    assert(q < n) by (nonlinear_arith)
        requires
            dim >= 1,
            i < n * dim,
            i == dim * q + (i as int % dim as int),
            0 <= i as int % dim as int,
    ;
}

/// Pushes the triangle of the nodes `a`, `b` and `c`, as the numbers of
/// their vertices.
pub fn push_triangle(
    nodes: &Vec<Node>,
    triangles: &mut Vec<usize>,
    a: usize,
    b: usize,
    c: usize,
    dim: usize,
)
    requires
        dim >= 1,
        1 <= a < nodes.len(),
        1 <= b < nodes.len(),
        1 <= c < nodes.len(),
    ensures
        final(triangles)@ == with_triangle(
            old(triangles)@,
            nodes@[a as int].i / dim,
            nodes@[b as int].i / dim,
            nodes@[c as int].i / dim,
        ),
        bound_kept(nodes@, old(triangles)@, nodes@, final(triangles)@, dim),
{
    triangles.push(nodes[a].i / dim);
    triangles.push(nodes[b].i / dim);
    triangles.push(nodes[c].i / dim);
    proof {
        lemma_triangle_pushed(
            old(triangles)@,
            nodes@[a as int].i / dim,
            nodes@[b as int].i / dim,
            nodes@[c as int].i / dim,
        );
        assert forall|n: int| #[trigger] arena_below(nodes@, dim, n) implies entries_from(
            triangles@,
            old(triangles)@.len() as int,
            n,
        ) by {
            lemma_number_below(nodes@[a as int].i, dim, n);
            lemma_number_below(nodes@[b as int].i, dim, n);
            lemma_number_below(nodes@[c as int].i, dim, n);
        }
    }
}

/// Whether the two edges that meet the edge behind `p` cross each other, so
/// that `p` and its successor can be cut out as a triangle.
pub open spec fn crossing_at(nodes: Seq<Node>, p: usize) -> bool {
    let n = nodes[p as int];
    let next = nodes[n.next_i as int];
    let a = nodes[n.prev_i as int];
    let b = nodes[next.next_i as int];
    &&& !same_point(a, b)
    &&& segments_meet(a, n, next, b)
    &&& leaves_inward(nodes, n.prev_i, next.next_i)
    &&& leaves_inward(nodes, next.next_i, n.prev_i)
}

/// The arena, the triangles and the node that the cure ends on, for a cure
/// that stands at `p`, stops at `start`, may still cut `cuts` crossings and
/// may still take `steps` steps before the next cut. When the walk is over
/// the ring is filtered.
pub open spec fn cured_from(
    nodes: Seq<Node>,
    tris: Seq<usize>,
    p: usize,
    start: usize,
    dim: usize,
    cuts: nat,
    steps: nat,
) -> (Seq<Node>, Seq<usize>, usize)
    decreases cuts, steps,
{
    let n = nodes[p as int];
    let next = nodes[n.next_i as int];
    let a = nodes[n.prev_i as int];
    let b = nodes[next.next_i as int];
    if cuts > 0 && crossing_at(nodes, p) {
        let n1 = unlinked(nodes, n.links());
        let n2 = unlinked(n1, n1[n.next_i as int].links());
        let tris2 = with_triangle(tris, a.i / dim, n.i / dim, b.i / dim);
        if b.next_i == next.next_i {
            let (f, stop) = filtered(n2, b.next_i, None);
            (f, tris2, stop)
        } else {
            cured_from(n2, tris2, b.next_i, next.next_i, dim, (cuts - 1) as nat, nodes.len())
        }
    } else if n.next_i == start || steps == 0 {
        let (f, stop) = filtered(nodes, n.next_i, None);
        (f, tris, stop)
    } else {
        cured_from(nodes, tris, n.next_i, start, dim, cuts, (steps - 1) as nat)
    }
}

/// The arena and the triangles after the small self-intersections of the
/// ring through `start` were cut out, and a node of the ring that is left.
pub open spec fn cured(nodes: Seq<Node>, tris: Seq<usize>, start: usize, dim: usize) -> (
    Seq<Node>,
    Seq<usize>,
    usize,
) {
    cured_from(nodes, tris, start, start, dim, nodes.len(), nodes.len())
}

/// The number of the vertex that the node `v` stands for.
pub open spec fn number_of(nodes: Seq<Node>, v: usize, dim: usize) -> usize {
    nodes[v as int].i / dim
}

/// Whether different nodes of `r` stand for different vertices.
pub open spec fn numbers_apart(nodes: Seq<Node>, r: Seq<usize>, dim: usize) -> bool {
    forall|j: int, k: int|
        0 <= j < r.len() && 0 <= k < r.len() && r[j] != r[k] ==> number_of(
            nodes,
            #[trigger] r[j],
            dim,
        ) != number_of(nodes, #[trigger] r[k], dim)
}

/// Whether the triangle at position `j` of the list has three different
/// vertices.
pub open spec fn three_apart(out: Seq<usize>, j: int) -> bool {
    out[j] != out[j + 1] && out[j + 1] != out[j + 2] && out[j] != out[j + 2]
}

/// Whether every triangle of the list from position `from` on has three
/// different vertices.
pub open spec fn no_repeats_from(out: Seq<usize>, from: int) -> bool {
    forall|j: int|
        from <= j && j + 3 <= out.len() && (j - from) % 3 == 0 ==> #[trigger] three_apart(out, j)
}

/// Whether the list `out` is the list `tris` with whole triangles pushed
/// behind it.
pub open spec fn list_grown(tris: Seq<usize>, out: Seq<usize>) -> bool {
    &&& out.len() >= tris.len()
    &&& (out.len() - tris.len()) % 3 == 0
    &&& forall|j: int| 0 <= j < tris.len() ==> #[trigger] out[j] == tris[j]
}

/// Triangles with different vertices behind triangles with different
/// vertices are triangles with different vertices.
pub proof fn lemma_no_repeats_chain(tris: Seq<usize>, mid: Seq<usize>, out: Seq<usize>)
    requires
        list_grown(tris, mid),
        list_grown(mid, out),
        no_repeats_from(mid, tris.len() as int),
        no_repeats_from(out, mid.len() as int),
    ensures
        list_grown(tris, out),
        no_repeats_from(out, tris.len() as int),
{
    let from = tris.len() as int;
    assert forall|j: int| from <= j && j + 3 <= out.len() && (j - from) % 3 == 0 implies #[trigger] three_apart(
        out,
        j,
    ) by {
        if j + 3 <= mid.len() {
            assert(three_apart(mid, j));
            assert(out[j] == mid[j] && out[j + 1] == mid[j + 1] && out[j + 2] == mid[j + 2]);
        } else {
            assert(three_apart(out, j));
        }
    }
}

/// Nodes of a ring whose nodes stand for different vertices stand for
/// different vertices, whatever ring they form, as long as every node
/// stands for the vertex that it stood for.
pub proof fn lemma_numbers_within(
    nodes: Seq<Node>,
    r: Seq<usize>,
    after: Seq<Node>,
    t: Seq<usize>,
    dim: usize,
)
    requires
        numbers_apart(nodes, r, dim),
        same_vertices(nodes, after),
        forall|k: int| 0 <= k < r.len() ==> #[trigger] r[k] < nodes.len(),
        forall|k: int| 0 <= k < t.len() ==> r.contains(#[trigger] t[k]),
    ensures
        numbers_apart(after, t, dim),
{
    assert forall|j: int, k: int| 0 <= j < t.len() && 0 <= k < t.len() && t[j] != t[k] implies number_of(
        after,
        #[trigger] t[j],
        dim,
    ) != number_of(after, #[trigger] t[k], dim) by {
        assert(r.contains(t[j]) && r.contains(t[k]));
        let x = choose|x: int| 0 <= x < r.len() && r[x] == t[j];
        let y = choose|y: int| 0 <= y < r.len() && r[y] == t[k];
        assert(number_of(nodes, r[x], dim) != number_of(nodes, r[y], dim));
        assert(after[t[j] as int].i == nodes[t[j] as int].i);
        assert(after[t[k] as int].i == nodes[t[k] as int].i);
    }
}

/// A triangle list with one more triangle is three entries longer, and
/// ends with the three vertices of the triangle.
pub proof fn lemma_triangle_pushed(tris: Seq<usize>, a: usize, b: usize, c: usize)
    ensures
        with_triangle(tris, a, b, c).len() == tris.len() + 3,
        list_grown(tris, with_triangle(tris, a, b, c)),
        with_triangle(tris, a, b, c)[tris.len() as int] == a,
        with_triangle(tris, a, b, c)[tris.len() as int + 1] == b,
        with_triangle(tris, a, b, c)[tris.len() as int + 2] == c,
{
    let one = tris.push(a);
    let two = one.push(b);
    let grown = two.push(c);
    assert(one.len() == tris.len() + 1);
    assert(two.len() == tris.len() + 2);
    assert forall|j: int| 0 <= j < tris.len() implies #[trigger] grown[j] == tris[j] by {
        assert(one[j] == tris[j]);
        assert(two[j] == one[j]);
    }
    assert(grown[tris.len() as int] == a) by {
        assert(one[tris.len() as int] == a);
        assert(two[tris.len() as int] == one[tris.len() as int]);
    }
    assert(grown[tris.len() as int + 1] == b) by {
        assert(two[tris.len() as int + 1] == b);
    }
}

/// A ring of fewer than four nodes has no crossing to cut out.
pub proof fn lemma_no_crossing_in_small_ring(nodes: Seq<Node>, r: Seq<usize>, c: int)
    requires
        is_ring(nodes, r),
        r.len() <= 3,
        0 <= c < r.len(),
    ensures
        !crossing_at(nodes, r[c]),
{
    let n = r.len() as int;
    let p = r[c];
    assert(ring_link(nodes, r, c));
    let next_c = after(c, n);
    let prev_c = before(c, n);
    assert(ring_link(nodes, r, next_c));
    assert(ring_link(nodes, r, prev_c));
    let node = nodes[p as int];
    let next = nodes[node.next_i as int];
    if n == 2 {
        let other = r[next_c];
        assert(node.prev_i == other && node.next_i == other);
        assert(next.next_i == p && next.prev_i == p);
        lemma_orient_flat(nodes[p as int], nodes[other as int]);
        lemma_orient_flat(nodes[other as int], nodes[p as int]);
    } else if n == 3 {
        assert(after(next_c, n) == prev_c);
    }
}

/// The ring without the nodes at position `c` and behind it, named from the
/// node behind those two on.
pub open spec fn without_two(r: Seq<usize>, c: int) -> Seq<usize> {
    let n = r.len() as int;
    turned(r, if c + 2 < n {
        c + 2
    } else {
        c + 2 - n
    }).subrange(0, n - 2)
}

/// The arena after the node `p` and the node behind it were unlinked.
pub open spec fn two_unlinked(nodes: Seq<Node>, p: usize) -> Seq<Node> {
    let n1 = unlinked(nodes, nodes[p as int].links());
    unlinked(n1, n1[nodes[p as int].next_i as int].links())
}

/// Cutting two neighbours out of a ring of four or more nodes leaves the
/// other nodes as a ring, and the ring links of all nodes outside the ring
/// alone.
pub proof fn lemma_cut_out(nodes: Seq<Node>, r: Seq<usize>, c: int)
    requires
        links_ok(nodes),
        is_ring(nodes, r),
        r.len() >= 4,
        0 <= c < r.len(),
    ensures
        ({
            let left = two_unlinked(nodes, r[c]);
            let t = without_two(r, c);
            let next = nodes[nodes[r[c] as int].next_i as int];
            &&& links_ok(left)
            &&& left.len() == nodes.len()
            &&& same_vertices(nodes, left)
            &&& outside_kept(nodes, left, r)
            &&& is_ring(left, t)
            &&& t.len() == r.len() - 2
            &&& t[0] == next.next_i
            &&& t[1] == nodes[next.next_i as int].next_i
            &&& forall|k: int| 0 <= k < t.len() ==> r.contains(#[trigger] t[k])
        }),
{
    let n = r.len() as int;
    let p = r[c];
    let node = nodes[p as int];
    assert(ring_link(nodes, r, c));
    assert(1 <= p < nodes.len());
    let s = if c + 2 < n {
        c + 2
    } else {
        c + 2 - n
    };
    lemma_ring_turned(nodes, r, s);
    let r2 = turned(r, s);
    assert forall|k: int| 0 <= k < n implies r2[k] == r[if k + s < n {
        k + s
    } else {
        k + s - n
    }] by {}
    assert(r2[n - 2] == p);
    assert(ring_link(nodes, r2, n - 2));
    assert(ring_link(nodes, r2, n - 1));
    assert(ring_link(nodes, r2, 0));
    let next_i = node.next_i;
    assert(next_i == r2[n - 1]);
    let n1 = unlinked(nodes, node.links());
    lemma_unlinked_ok(nodes, node.links());
    lemma_unlinked_outside(nodes, r2, n - 2);
    lemma_remove_keeps_ring(nodes, r2, n - 2);
    let r3 = r2.remove(n - 2);
    assert(r3[n - 2] == next_i);
    assert(1 <= next_i < nodes.len());
    let n2 = unlinked(n1, n1[next_i as int].links());
    assert(ring_link(n1, r3, n - 2));
    lemma_unlinked_ok(n1, n1[next_i as int].links());
    lemma_unlinked_outside(n1, r3, n - 2);
    lemma_remove_keeps_ring(n1, r3, n - 2);
    let r4 = r3.remove(n - 2);
    assert(r4 =~= r2.subrange(0, n - 2));
    assert(r4 == without_two(r, c));
    let next = nodes[next_i as int];
    assert(next.next_i == r2[0]);
    assert(nodes[next.next_i as int].next_i == r2[1]);
    assert(r4[0] == r2[0]);
    assert(r4[1] == r2[1]);
    assert forall|k: int| 0 <= k < r2.len() implies r.contains(#[trigger] r2[k]) by {}
    assert forall|k: int| 0 <= k < r4.len() implies r.contains(#[trigger] r4[k]) by {
        assert(r4[k] == r2[k]);
        assert(r.contains(r2[k]));
    }
    assert forall|k: int| 0 <= k < r3.len() implies r.contains(#[trigger] r3[k]) by {
        if k < n - 2 {
            assert(r3[k] == r2[k]);
        } else {
            assert(r3[k] == r2[k + 1]);
        }
        assert(r.contains(r2[if k < n - 2 {
            k
        } else {
            k + 1
        }]));
    }
    assert(outside_kept(nodes, n1, r)) by {
        assert forall|v: int| 0 <= v < nodes.len() && !r.contains(v as usize) implies (
        #[trigger] n1[v]).prev_i == nodes[v].prev_i && n1[v].next_i == nodes[v].next_i by {
            assert(!r2.contains(v as usize)) by {
                if r2.contains(v as usize) {
                    let j = choose|j: int| 0 <= j < r2.len() && r2[j] == v as usize;
                    assert(r.contains(r2[j]));
                }
            }
        }
    }
    lemma_outside_chain(nodes, n1, n2, r, r3);
}

/// The triangle that is cut out at position `c` of a ring of four or more
/// nodes has three different vertices, where the nodes of the ring stand
/// for different vertices.
pub proof fn lemma_cut_triangle(nodes: Seq<Node>, tris: Seq<usize>, r: Seq<usize>, c: int, dim: usize)
    requires
        is_ring(nodes, r),
        r.len() >= 4,
        0 <= c < r.len(),
    ensures
        ({
            let node = nodes[r[c] as int];
            let next = nodes[node.next_i as int];
            let grown = with_triangle(
                tris,
                nodes[node.prev_i as int].i / dim,
                node.i / dim,
                nodes[next.next_i as int].i / dim,
            );
            &&& list_grown(tris, grown)
            &&& grown.len() == tris.len() + 3
            &&& numbers_apart(nodes, r, dim) ==> no_repeats_from(grown, tris.len() as int)
        }),
{
    let n = r.len() as int;
    let node = nodes[r[c] as int];
    let next = nodes[node.next_i as int];
    let a = nodes[node.prev_i as int];
    let b = nodes[next.next_i as int];
    let grown = with_triangle(tris, a.i / dim, node.i / dim, b.i / dim);
    lemma_triangle_pushed(tris, a.i / dim, node.i / dim, b.i / dim);
    assert(ring_link(nodes, r, c));
    let pc = before(c, n);
    let nc = after(c, n);
    let bc = after(nc, n);
    assert(ring_link(nodes, r, nc));
    assert(node.prev_i == r[pc] && node.next_i == r[nc] && next.next_i == r[bc]);
    if numbers_apart(nodes, r, dim) {
        assert(r[pc] != r[c] && r[c] != r[bc] && r[pc] != r[bc]) by {
            if pc < c {
                assert(r[pc] != r[c]);
            } else {
                assert(r[c] != r[pc]);
            }
            if c < bc {
                assert(r[c] != r[bc]);
            } else {
                assert(r[bc] != r[c]);
            }
            if pc < bc {
                assert(r[pc] != r[bc]);
            } else if bc < pc {
                assert(r[bc] != r[pc]);
            }
        }
        assert(number_of(nodes, r[pc], dim) != number_of(nodes, r[c], dim));
        assert(number_of(nodes, r[c], dim) != number_of(nodes, r[bc], dim));
        assert(number_of(nodes, r[pc], dim) != number_of(nodes, r[bc], dim));
        assert(three_apart(grown, tris.len() as int));
        assert forall|j: int|
            tris.len() <= j && j + 3 <= grown.len() && (j - tris.len()) % 3
                == 0 implies #[trigger] three_apart(grown, j) by {
            assert(j == tris.len());
        }
    }
}

/// On a ring that is named from the node on at which the cure stops, a cure
/// that stands at position `c` leaves a ring of some of its nodes behind,
/// and the ring links of all other nodes alone. It pushes one triangle for
/// each two nodes that the ring loses to a cut.
#[verifier::spinoff_prover]
#[verifier::rlimit(80)]
pub proof fn lemma_cure_walk(
    nodes: Seq<Node>,
    tris: Seq<usize>,
    r: Seq<usize>,
    c: int,
    dim: usize,
    cuts: nat,
    steps: nat,
)
    requires
        links_ok(nodes),
        is_ring(nodes, r),
        0 <= c < r.len(),
        cuts >= r.len(),
        steps >= r.len() - c,
    ensures
        ({
            let (left, out, stop) = cured_from(nodes, tris, r[c], r[0], dim, cuts, steps);
            &&& links_ok(left)
            &&& left.len() == nodes.len()
            &&& same_vertices(nodes, left)
            &&& outside_kept(nodes, left, r)
            &&& list_grown(tris, out)
            &&& numbers_apart(nodes, r, dim) ==> no_repeats_from(out, tris.len() as int)
            &&& exists|t: Seq<usize>|
                ring_left(left, t, stop, r) && 2 * (out.len() - tris.len()) <= 3 * (r.len()
                    - t.len())
        }),
    decreases cuts, steps,
{
    let n = r.len() as int;
    let p = r[c];
    let node = nodes[p as int];
    assert(ring_link(nodes, r, c));
    assert(1 <= p < nodes.len());
    lemma_ring_fits(nodes, r);
    let (left, out, stop) = cured_from(nodes, tris, p, r[0], dim, cuts, steps);
    if cuts > 0 && crossing_at(nodes, p) {
        if n <= 3 {
            lemma_no_crossing_in_small_ring(nodes, r, c);
        }
        lemma_cut_out(nodes, r, c);
        let n2 = two_unlinked(nodes, p);
        let r4 = without_two(r, c);
        let next = nodes[node.next_i as int];
        let b = nodes[next.next_i as int];
        let a = nodes[node.prev_i as int];
        let tris2 = with_triangle(tris, a.i / dim, node.i / dim, b.i / dim);
        assert(r4[0] != r4[1]);
        lemma_cure_walk(n2, tris2, r4, 1, dim, (cuts - 1) as nat, nodes.len());
        lemma_cut_triangle(nodes, tris, r, c, dim);
        if numbers_apart(nodes, r, dim) {
            assert forall|k: int| 0 <= k < r.len() implies #[trigger] r[k] < nodes.len() by {
                assert(1 <= r[k] < nodes.len());
            }
            lemma_numbers_within(nodes, r, n2, r4, dim);
        }
        let (l2, o2, s2) = cured_from(n2, tris2, r4[1], r4[0], dim, (cuts - 1) as nat, nodes.len());
        assert((left, out, stop) == (l2, o2, s2));
        let t = choose|t: Seq<usize>|
            ring_left(left, t, stop, r4) && 2 * (out.len() - tris2.len()) <= 3 * (r4.len()
                - t.len());
        assert forall|k: int| 0 <= k < t.len() implies r.contains(#[trigger] t[k]) by {
            assert(r4.contains(t[k]));
            let j = choose|j: int| 0 <= j < r4.len() && r4[j] == t[k];
            assert(r.contains(r4[j]));
        }
        lemma_outside_chain(nodes, n2, left, r, r4);
        assert(ring_left(left, t, stop, r));
        if numbers_apart(nodes, r, dim) {
            lemma_no_repeats_chain(tris, tris2, out);
        }
        assert(list_grown(tris, out));
        assert(ring_left(left, t, stop, r) && 2 * (out.len() - tris.len()) <= 3 * (r.len()
            - t.len()));
    } else if node.next_i == r[0] || steps == 0 {
        assert(c + 1 == n) by {
            if c + 1 < n {
                assert(r[0] != r[c + 1]);
            }
        }
        lemma_filter_walk(nodes, r, 0, nodes.len(), nodes.len(), true);
        let (f, st) = filtered(nodes, node.next_i, None);
        assert((f, st) == crate::ring::filtered_from(nodes, r[0], r[0], nodes.len(), nodes.len()));
        let t = choose|t: Seq<usize>| ring_left(f, t, st, r);
        assert((left, out, stop) == (f, tris, st));
        assert(ring_left(left, t, stop, r) && 2 * (out.len() - tris.len()) <= 3 * (r.len()
            - t.len()));
    } else {
        assert(c + 1 < n);
        lemma_cure_walk(nodes, tris, r, c + 1, dim, cuts, (steps - 1) as nat);
        assert((left, out, stop) == cured_from(
            nodes,
            tris,
            r[c + 1],
            r[0],
            dim,
            cuts,
            (steps - 1) as nat,
        ));
    }
}

/// The first valid diagonal from `a` to a node from `b` on, or from a later
/// node of the ring, before the walk is back at `start`. A diagonal joins
/// two nodes that are no neighbours and stand for different vertices.
pub open spec fn diagonal_from(
    nodes: Seq<Node>,
    a: usize,
    b: usize,
    start: usize,
    fa: nat,
    fb: nat,
) -> Option<(usize, usize)>
    decreases fa, fb,
{
    if fb > 0 && b != nodes[a as int].prev_i {
        if nodes[a as int].i != nodes[b as int].i && diagonal_valid(nodes, a, b) {
            Some((a, b))
        } else {
            diagonal_from(nodes, a, nodes[b as int].next_i, start, fa, (fb - 1) as nat)
        }
    } else {
        let a2 = nodes[a as int].next_i;
        if fa <= 1 || a2 == start {
            None
        } else {
            diagonal_from(
                nodes,
                a2,
                nodes[nodes[a2 as int].next_i as int].next_i,
                start,
                (fa - 1) as nat,
                nodes.len(),
            )
        }
    }
}

/// Whether `a` and `b` are nodes of the ring that are no neighbours: `a`
/// stands at position `i`, and `b` stands `k` nodes behind it, with at
/// least one node between them on either side.
pub open spec fn apart_on_ring(r: Seq<usize>, a: usize, b: usize, i: int, k: int) -> bool {
    &&& 0 <= i < r.len()
    &&& 2 <= k <= r.len() - 2
    &&& a == r[i]
    &&& b == turned(r, i)[k]
}

/// Whether what the search for a diagonal found, if anything, are two nodes
/// of the ring that are no neighbours.
pub open spec fn diagonal_fits(r: Seq<usize>, found: Option<(usize, usize)>) -> bool {
    match found {
        Some(d) => pair_fits(r, d.0, d.1),
        None => true,
    }
}

/// Whether `a` and `b` are nodes of the ring that are no neighbours.
pub open spec fn pair_fits(r: Seq<usize>, a: usize, b: usize) -> bool {
    exists|i: int, k: int| #[trigger] apart_on_ring(r, a, b, i, k)
}

/// On a ring, the search for a diagonal from position `i` and `k` nodes
/// behind it on finds two nodes of the ring that are no neighbours, or
/// nothing.
pub proof fn lemma_diagonal_walk(nodes: Seq<Node>, r: Seq<usize>, i: int, k: int, fa: nat, fb: nat)
    requires
        is_ring(nodes, r),
        r.len() >= 3,
        0 <= i < r.len(),
        2 <= k <= r.len() - 1,
        fa >= r.len() - i,
        fb >= r.len() - 1 - k,
        nodes.len() >= r.len(),
    ensures
        diagonal_fits(r, diagonal_from(nodes, r[i], turned(r, i)[k], r[0], fa, fb)),
    decreases fa, fb,
{
    let n = r.len() as int;
    lemma_ring_turned(nodes, r, i);
    let r2 = turned(r, i);
    assert forall|j: int| 0 <= j < n implies r2[j] == r[if j + i < n {
        j + i
    } else {
        j + i - n
    }] by {}
    let a = r[i];
    let b = r2[k];
    assert(ring_link(nodes, r2, 0));
    assert(ring_link(nodes, r2, k));
    assert(1 <= a < nodes.len());
    assert(nodes[a as int].prev_i == r2[n - 1]);
    if fb > 0 && b != nodes[a as int].prev_i {
        assert(k <= n - 2);
        if nodes[a as int].i != nodes[b as int].i && diagonal_valid(nodes, a, b) {
            assert(apart_on_ring(r, a, b, i, k));
            assert(diagonal_from(nodes, a, b, r[0], fa, fb) == Some((a, b)));
            assert(pair_fits(r, a, b));
            assert(diagonal_fits(r, diagonal_from(nodes, a, b, r[0], fa, fb)));
        } else {
            assert(nodes[b as int].next_i == r2[k + 1]);
            lemma_diagonal_walk(nodes, r, i, k + 1, fa, (fb - 1) as nat);
            assert(diagonal_from(nodes, a, b, r[0], fa, fb) == diagonal_from(
                nodes,
                a,
                r2[k + 1],
                r[0],
                fa,
                (fb - 1) as nat,
            ));
            assert(diagonal_fits(r, diagonal_from(nodes, a, b, r[0], fa, fb)));
        }
    } else {
        assert(k == n - 1) by {
            if k < n - 1 {
                assert(r2[k] != r2[n - 1]);
            }
        }
        let a2 = nodes[a as int].next_i;
        assert(a2 == r2[1]);
        if fa <= 1 || a2 == r[0] {
            assert(diagonal_from(nodes, a, b, r[0], fa, fb) is None);
            assert(diagonal_fits(r, diagonal_from(nodes, a, b, r[0], fa, fb)));
        } else {
            assert(i + 1 < n) by {
                if i + 1 >= n {
                    assert(r2[1] == r[0]);
                }
            }
            assert(a2 == r[i + 1]);
            lemma_ring_turned(nodes, r, i + 1);
            let r3 = turned(r, i + 1);
            assert forall|j: int| 0 <= j < n implies r3[j] == r[if j + i + 1 < n {
                j + i + 1
            } else {
                j + i + 1 - n
            }] by {}
            assert(ring_link(nodes, r3, 0));
            assert(ring_link(nodes, r3, 1));
            assert(nodes[nodes[a2 as int].next_i as int].next_i == r3[2]);
            lemma_diagonal_walk(nodes, r, i + 1, 2, (fa - 1) as nat, nodes.len());
            assert(diagonal_from(nodes, a, b, r[0], fa, fb) == diagonal_from(
                nodes,
                r[i + 1],
                r3[2],
                r[0],
                (fa - 1) as nat,
                nodes.len(),
            ));
            assert(diagonal_fits(r, diagonal_from(nodes, a, b, r[0], fa, fb)));
        }
    }
}

/// The first valid diagonal of a ring of three or more nodes joins two
/// nodes of the ring that are no neighbours.
pub proof fn lemma_diagonal_of_a_ring(nodes: Seq<Node>, r: Seq<usize>)
    requires
        is_ring(nodes, r),
        r.len() >= 3,
    ensures
        diagonal_fits(r, first_diagonal(nodes, r[0])),
{
    lemma_ring_fits(nodes, r);
    lemma_ring_turned(nodes, r, 0);
    assert(turned(r, 0) =~= r);
    assert(ring_link(nodes, r, 0));
    assert(ring_link(nodes, r, 1));
    lemma_diagonal_walk(nodes, r, 0, 2, nodes.len(), nodes.len());
}

/// Whether the two halves of a split ring stand as they should: `ta` and
/// `tb` are rings of the arena `halves` that share no node, `ta` starts at
/// `a1` and has no more nodes than the half through `a`, `tb` starts at
/// `c1` and has no more nodes than the other half, and each of their nodes
/// is a node of the ring `r` or one of the two new nodes.
pub open spec fn halves_ok(
    nodes: Seq<Node>,
    r: Seq<usize>,
    k: int,
    halves: Seq<Node>,
    a1: usize,
    c1: usize,
    ta: Seq<usize>,
    tb: Seq<usize>,
) -> bool {
    &&& is_ring(halves, ta)
    &&& is_ring(halves, tb)
    &&& ta[0] == a1
    &&& tb[0] == c1
    &&& ta.len() <= r.len() - k + 1
    &&& tb.len() <= k + 1
    &&& forall|i: int, j: int| 0 <= i < ta.len() && 0 <= j < tb.len() ==> ta[i] != tb[j]
    &&& forall|j: int| 0 <= j < ta.len() ==> r.contains(#[trigger] ta[j])
    &&& forall|j: int|
        0 <= j < tb.len() ==> (#[trigger] tb[j]) == nodes.len() || tb[j] == nodes.len() + 1 || (
        r.contains(tb[j]) && tb[j] != r[0] && tb[j] != r[k])
}

/// Whether some two rings are the halves of the split ring.
pub open spec fn split_in_halves(
    nodes: Seq<Node>,
    r: Seq<usize>,
    k: int,
    halves: Seq<Node>,
    a1: usize,
    c1: usize,
) -> bool {
    exists|ta: Seq<usize>, tb: Seq<usize>| #[trigger]
        halves_ok(nodes, r, k, halves, a1, c1, ta, tb)
}

/// A bridge between the first node of a ring and the node `k` behind it,
/// where the two are no neighbours, and the two filters at the ends of the
/// bridge leave two rings that share no node, and the ring links of all
/// nodes outside the ring alone.
pub proof fn lemma_split_step(nodes: Seq<Node>, r: Seq<usize>, k: int)
    requires
        links_ok(nodes),
        nodes.len() + 2 <= usize::MAX,
        is_ring(nodes, r),
        2 <= k <= r.len() - 2,
    ensures
        ({
            let joined = bridged(nodes, r[0], r[k]);
            let c = (nodes.len() + 1) as usize;
            let (n1, a1) = filtered(joined, r[0], Some(joined[r[0] as int].next_i));
            let (n2, c1) = filtered(n1, c, Some(n1[c as int].next_i));
            &&& links_ok(n2)
            &&& n2.len() == nodes.len() + 2
            &&& same_vertices(nodes, n2)
            &&& n2[nodes.len() as int].i == nodes[r[0] as int].i
            &&& n2[nodes.len() as int + 1].i == nodes[r[k] as int].i
            &&& outside_kept(nodes, n2, r)
            &&& split_in_halves(nodes, r, k, n2, a1, c1)
        }),
{
    let n = r.len() as int;
    let a = r[0];
    let b = r[k];
    let a2 = nodes.len() as usize;
    let b2 = (nodes.len() + 1) as usize;
    assert(1 <= a < nodes.len() && 1 <= b < nodes.len());
    assert(r[0] != r[k]);
    assert(ring_link(nodes, r, 0));
    assert(ring_link(nodes, r, k));
    assert(r.contains(r[0]) && r.contains(r[k]) && r.contains(r[1]) && r.contains(r[k - 1]));
    lemma_bridged_links(nodes, a, b);
    lemma_bridged_ok(nodes, a, b, r);
    lemma_bridge_splits_ring(nodes, r, k);
    let joined = bridged(nodes, a, b);
    let first = seq![a] + r.subrange(k, n);
    let second = seq![a2] + r.subrange(1, k) + seq![b2];
    assert forall|j: int| 0 <= j < first.len() implies first[j] == (if j == 0 {
        a
    } else {
        r[k + j - 1]
    }) by {}
    assert forall|j: int| 0 <= j < second.len() implies second[j] == (if j == 0 {
        a2
    } else if j == k {
        b2
    } else {
        r[j]
    }) by {}
    let m = first.len() as int;
    lemma_ring_turned(joined, first, 1);
    let first_turned = turned(first, 1);
    assert forall|j: int| 0 <= j < m implies first_turned[j] == first[if j + 1 < m {
        j + 1
    } else {
        j + 1 - m
    }] by {}
    assert(first_turned[0] == b);
    assert(first_turned[m - 1] == a);
    assert(joined[a as int].next_i == b);
    lemma_ring_fits(joined, first_turned);
    lemma_filter_walk(joined, first_turned, m - 1, joined.len(), joined.len(), false);
    let (n1, a1) = filtered(joined, a, Some(b));
    assert((n1, a1) == crate::ring::filtered_from(joined, a, b, joined.len(), joined.len()));
    let ta = choose|ta: Seq<usize>| ring_left(n1, ta, a1, first_turned);
    assert forall|i: int, j: int| 0 <= i < second.len() && 0 <= j < first_turned.len() implies second[i]
        != first_turned[j] by {
        let fj = if j + 1 < m {
            j + 1
        } else {
            j + 1 - m
        };
        assert(first_turned[j] == first[fj]);
        assert(1 <= first[fj] < nodes.len()) by {
            if fj > 0 {
                assert(1 <= r[k + fj - 1] < nodes.len());
            }
        }
        if 0 < i < k {
            if fj == 0 {
                assert(r[0] != r[i]);
            } else {
                assert(r[i] != r[k + fj - 1]);
            }
        }
    }
    lemma_other_ring_kept(joined, n1, first_turned, second);
    assert(ring_link(n1, second, k));
    assert(n1[b2 as int].next_i == a2);
    lemma_ring_fits(n1, second);
    lemma_filter_walk(n1, second, k, n1.len(), n1.len(), false);
    let (n2, c1) = filtered(n1, b2, Some(a2));
    assert((n2, c1) == crate::ring::filtered_from(n1, b2, a2, n1.len(), n1.len()));
    let tb = choose|tb: Seq<usize>| ring_left(n2, tb, c1, second);
    assert forall|i: int, j: int| 0 <= i < ta.len() && 0 <= j < second.len() implies ta[i]
        != second[j] by {
        assert(first_turned.contains(ta[i]));
        let x = choose|x: int| 0 <= x < first_turned.len() && first_turned[x] == ta[i];
        assert(second[j] != first_turned[x]);
    }
    lemma_other_ring_kept(n1, n2, second, ta);
    assert forall|j: int| 0 <= j < first_turned.len() implies r.contains(
        #[trigger] first_turned[j],
    ) by {
        let fj = if j + 1 < m {
            j + 1
        } else {
            j + 1 - m
        };
        assert(first_turned[j] == first[fj]);
        if fj > 0 {
            assert(first[fj] == r[k + fj - 1]);
        }
    }
    assert forall|j: int| 0 <= j < second.len() implies r.contains(#[trigger] second[j])
        || second[j] >= nodes.len() by {
        if 0 < j < k {
            assert(second[j] == r[j]);
        }
    }
    lemma_outside_chain(nodes, joined, n1, r, first_turned);
    lemma_outside_chain(nodes, n1, n2, r, second);
    assert forall|j: int| 0 <= j < ta.len() implies r.contains(#[trigger] ta[j]) by {
        assert(first_turned.contains(ta[j]));
        let x = choose|x: int| 0 <= x < first_turned.len() && first_turned[x] == ta[j];
        assert(r.contains(first_turned[x]));
    }
    assert forall|j: int| 0 <= j < tb.len() implies (#[trigger] tb[j]) == nodes.len() || tb[j]
        == nodes.len() + 1 || (r.contains(tb[j]) && tb[j] != r[0] && tb[j] != r[k]) by {
        assert(second.contains(tb[j]));
        let x = choose|x: int| 0 <= x < second.len() && second[x] == tb[j];
        if 0 < x < k {
            assert(second[x] == r[x]);
            assert(r[0] != r[x]);
            assert(r[x] != r[k]);
        }
    }
    assert(n1[a2 as int].i == joined[a2 as int].i);
    assert(n2[a2 as int].i == n1[a2 as int].i);
    assert(n1[b2 as int].i == joined[b2 as int].i);
    assert(n2[b2 as int].i == n1[b2 as int].i);
    assert forall|v: int| 0 <= v < nodes.len() implies (#[trigger] n2[v]).i == nodes[v].i by {
        assert(joined[v].i == nodes[v].i);
        assert(n1[v].i == joined[v].i);
        assert(n2[v].i == n1[v].i);
    }
    assert forall|i: int, j: int| 0 <= i < ta.len() && 0 <= j < tb.len() implies ta[i] != tb[j] by {
        assert(second.contains(tb[j]));
        let x = choose|x: int| 0 <= x < second.len() && second[x] == tb[j];
        assert(ta[i] != second[x]);
    }
    assert(halves_ok(nodes, r, k, n2, a1, c1, ta, tb));
}

/// The first valid diagonal of the ring through `start`.
pub open spec fn first_diagonal(nodes: Seq<Node>, start: usize) -> Option<(usize, usize)> {
    diagonal_from(
        nodes,
        start,
        nodes[nodes[start as int].next_i as int].next_i,
        start,
        nodes.len(),
        nodes.len(),
    )
}

/// The arena and the triangles after the ring through `ear` was sliced,
/// starting in the state `pass`, with at most `depth` splits inside each
/// other.
pub open spec fn sliced(
    nodes: Seq<Node>,
    tris: Seq<usize>,
    ear: usize,
    f: Frame,
    pass: Pass,
    depth: nat,
) -> (Seq<Node>, Seq<usize>)
    decreases depth, 2 * steps_left(pass) + 2, 0nat, 0nat,
{
    let start = if pass is Fresh && f.size != 0 {
        indexed(nodes, ear, f.min_x, f.min_y, f.size)
    } else {
        nodes
    };
    ear_loop(start, tris, ear, ear, f, pass, depth, start.len(), start.len())
}

/// The arena and the triangles after the slicing went on from the node
/// `ear`. The ring is done when two nodes are left. An ear is cut off as
/// the triangle of its predecessor, itself and its successor, and the
/// search goes on behind the successor. When the search comes round to
/// `stop` without a cut, the next recovery step is taken.
pub open spec fn ear_loop(
    nodes: Seq<Node>,
    tris: Seq<usize>,
    ear: usize,
    stop: usize,
    f: Frame,
    pass: Pass,
    depth: nat,
    cuts: nat,
    steps: nat,
) -> (Seq<Node>, Seq<usize>)
    decreases depth, 2 * steps_left(pass) + 1, cuts, steps,
{
    let e = nodes[ear as int];
    if e.prev_i == e.next_i {
        (nodes, tris)
    } else if cuts > 0 && ear_ok(nodes, ear, f) {
        let after = nodes[e.next_i as int].next_i;
        ear_loop(
            unlinked(nodes, e.links()),
            with_triangle(
                tris,
                nodes[e.prev_i as int].i / f.dim,
                e.i / f.dim,
                nodes[e.next_i as int].i / f.dim,
            ),
            after,
            after,
            f,
            pass,
            depth,
            (cuts - 1) as nat,
            nodes.len(),
        )
    } else if e.next_i == stop || steps == 0 {
        match pass {
            Pass::Fresh => {
                let (n1, e1) = filtered(nodes, e.next_i, None);
                sliced(n1, tris, e1, f, Pass::Filtered, depth)
            },
            Pass::Filtered => {
                let (n1, e1) = filtered(nodes, e.next_i, None);
                let (n2, t2, e2) = cured(n1, tris, e1, f.dim);
                sliced(n2, t2, e2, f, Pass::Cured, depth)
            },
            Pass::Cured => split(nodes, tris, e.next_i, f, depth),
        }
    } else {
        ear_loop(nodes, tris, e.next_i, stop, f, pass, depth, cuts, (steps - 1) as nat)
    }
}

/// The arena and the triangles after the ring through `start` was split
/// along its first valid diagonal and both halves were sliced. A ring
/// without a valid diagonal is given up.
pub open spec fn split(nodes: Seq<Node>, tris: Seq<usize>, start: usize, f: Frame, depth: nat) -> (
    Seq<Node>,
    Seq<usize>,
)
    decreases depth, 0nat, 0nat, 0nat,
{
    match first_diagonal(nodes, start) {
        Some((a, b)) => if depth > 0 {
            let joined = bridged(nodes, a, b);
            let c = (nodes.len() + 1) as usize;
            let (n1, a1) = filtered(joined, a, Some(joined[a as int].next_i));
            let (n2, c1) = filtered(n1, c, Some(n1[c as int].next_i));
            let (n3, t3) = sliced(n2, tris, a1, f, Pass::Fresh, (depth - 1) as nat);
            sliced(n3, t3, c1, f, Pass::Fresh, (depth - 1) as nat)
        } else {
            (nodes, tris)
        },
        None => (nodes, tris),
    }
}

/// The most triangles that a ring of `n` nodes is sliced into.
pub open spec fn most_triangles(n: int) -> int {
    if n >= 2 {
        n - 2
    } else {
        0
    }
}

/// The most nodes that are pushed when a ring of `n` nodes is sliced: two
/// for each split.
pub open spec fn most_new_nodes(n: int) -> int {
    if n >= 3 {
        2 * (n - 3)
    } else {
        0
    }
}

/// Whether slicing the ring `r` went as it should: the links of the arena
/// are in order, the arena grew by no more than two nodes for each split
/// that the ring allows, every node stands for the vertex that it stood
/// for, the ring links of all nodes outside the ring were left alone, whole
/// triangles were pushed and no more than the ring allows, and each has
/// three different vertices where the nodes of the ring stand for different
/// vertices.
pub open spec fn slicing_ok(
    nodes: Seq<Node>,
    tris: Seq<usize>,
    r: Seq<usize>,
    dim: usize,
    done: (Seq<Node>, Seq<usize>),
) -> bool {
    &&& links_ok(done.0)
    &&& nodes.len() <= done.0.len() <= nodes.len() + most_new_nodes(r.len() as int)
    &&& same_vertices(nodes, done.0)
    &&& outside_kept(nodes, done.0, r)
    &&& list_grown(tris, done.1)
    &&& done.1.len() <= tris.len() + 3 * most_triangles(r.len() as int)
    &&& numbers_apart(nodes, r, dim) ==> no_repeats_from(done.1, tris.len() as int)
}

/// Slicing that went as it should on a ring `t` that was left of the ring
/// `r` went as it should on `r`.
pub proof fn lemma_slicing_within(
    nodes: Seq<Node>,
    tris: Seq<usize>,
    r: Seq<usize>,
    mid: Seq<Node>,
    tris_mid: Seq<usize>,
    t: Seq<usize>,
    dim: usize,
    done: (Seq<Node>, Seq<usize>),
)
    requires
        outside_kept(nodes, mid, r),
        same_vertices(nodes, mid),
        forall|k: int| 0 <= k < t.len() ==> r.contains(#[trigger] t[k]) || t[k] >= nodes.len(),
        slicing_ok(mid, tris_mid, t, dim, done),
        list_grown(tris, tris_mid),
        numbers_apart(nodes, r, dim) ==> no_repeats_from(tris_mid, tris.len() as int)
            && numbers_apart(mid, t, dim),
        (tris_mid.len() - tris.len()) + 3 * most_triangles(t.len() as int) <= 3 * most_triangles(
            r.len() as int,
        ),
        (mid.len() - nodes.len()) + most_new_nodes(t.len() as int) <= most_new_nodes(
            r.len() as int,
        ),
    ensures
        slicing_ok(nodes, tris, r, dim, done),
{
    lemma_outside_chain(nodes, mid, done.0, r, t);
    assert forall|v: int| 0 <= v < nodes.len() implies (#[trigger] done.0[v]).i == nodes[v].i by {
        assert(mid[v].i == nodes[v].i);
        assert(done.0[v].i == mid[v].i);
    }
    if numbers_apart(nodes, r, dim) {
        lemma_no_repeats_chain(tris, tris_mid, done.1);
    }
    assert forall|j: int| 0 <= j < tris.len() implies #[trigger] done.1[j] == tris[j] by {
        assert(tris_mid[j] == tris[j]);
        assert(done.1[j] == tris_mid[j]);
    }
}

/// The triangle of an ear of a ring of three or more nodes has three
/// different vertices, where the nodes of the ring stand for different
/// vertices.
pub proof fn lemma_ear_triangle(nodes: Seq<Node>, tris: Seq<usize>, r: Seq<usize>, e: int, dim: usize)
    requires
        is_ring(nodes, r),
        r.len() >= 3,
        0 <= e < r.len(),
    ensures
        ({
            let node = nodes[r[e] as int];
            let grown = with_triangle(
                tris,
                nodes[node.prev_i as int].i / dim,
                node.i / dim,
                nodes[node.next_i as int].i / dim,
            );
            &&& list_grown(tris, grown)
            &&& grown.len() == tris.len() + 3
            &&& numbers_apart(nodes, r, dim) ==> no_repeats_from(grown, tris.len() as int)
        }),
{
    let n = r.len() as int;
    let node = nodes[r[e] as int];
    let a = nodes[node.prev_i as int];
    let b = nodes[node.next_i as int];
    let grown = with_triangle(tris, a.i / dim, node.i / dim, b.i / dim);
    lemma_triangle_pushed(tris, a.i / dim, node.i / dim, b.i / dim);
    assert(ring_link(nodes, r, e));
    let pc = before(e, n);
    let nc = after(e, n);
    assert(node.prev_i == r[pc] && node.next_i == r[nc]);
    if numbers_apart(nodes, r, dim) {
        assert(r[pc] != r[e] && r[e] != r[nc] && r[pc] != r[nc]) by {
            if pc < e {
                assert(r[pc] != r[e]);
            } else {
                assert(r[e] != r[pc]);
            }
            if e < nc {
                assert(r[e] != r[nc]);
            } else {
                assert(r[nc] != r[e]);
            }
            if pc < nc {
                assert(r[pc] != r[nc]);
            } else if nc < pc {
                assert(r[nc] != r[pc]);
            }
        }
        assert(number_of(nodes, r[pc], dim) != number_of(nodes, r[e], dim));
        assert(number_of(nodes, r[e], dim) != number_of(nodes, r[nc], dim));
        assert(number_of(nodes, r[pc], dim) != number_of(nodes, r[nc], dim));
        assert(three_apart(grown, tris.len() as int));
        assert forall|j: int|
            tris.len() <= j && j + 3 <= grown.len() && (j - tris.len()) % 3
                == 0 implies #[trigger] three_apart(grown, j) by {
            assert(j == tris.len());
        }
    }
}

/// The nodes of the second half of a split ring stand for different
/// vertices, where the nodes of the ring did.
pub proof fn lemma_numbers_in_half(
    nodes: Seq<Node>,
    r: Seq<usize>,
    k: int,
    halves: Seq<Node>,
    tb: Seq<usize>,
    dim: usize,
)
    requires
        is_ring(nodes, r),
        2 <= k <= r.len() - 2,
        nodes.len() + 2 <= usize::MAX,
        numbers_apart(nodes, r, dim),
        same_vertices(nodes, halves),
        halves.len() >= nodes.len() + 2,
        halves[nodes.len() as int].i == nodes[r[0] as int].i,
        halves[nodes.len() as int + 1].i == nodes[r[k] as int].i,
        forall|j: int|
            0 <= j < tb.len() ==> (#[trigger] tb[j]) == nodes.len() || tb[j] == nodes.len() + 1 || (
            r.contains(tb[j]) && tb[j] != r[0] && tb[j] != r[k]),
    ensures
        numbers_apart(halves, tb, dim),
{
    assert(r[0] != r[k]);
    assert(1 <= r[0] < nodes.len() && 1 <= r[k] < nodes.len());
    assert forall|x: int, y: int| 0 <= x < tb.len() && 0 <= y < tb.len() && tb[x] != tb[y] implies number_of(
        halves,
        #[trigger] tb[x],
        dim,
    ) != number_of(halves, #[trigger] tb[y], dim) by {
        let rx = if tb[x] == nodes.len() {
            r[0]
        } else if tb[x] == nodes.len() + 1 {
            r[k]
        } else {
            tb[x]
        };
        let ry = if tb[y] == nodes.len() {
            r[0]
        } else if tb[y] == nodes.len() + 1 {
            r[k]
        } else {
            tb[y]
        };
        assert(r.contains(rx) && r.contains(ry));
        let ix = choose|ix: int| 0 <= ix < r.len() && r[ix] == rx;
        let iy = choose|iy: int| 0 <= iy < r.len() && r[iy] == ry;
        assert(1 <= r[ix] < nodes.len() && 1 <= r[iy] < nodes.len());
        assert(rx != ry);
        assert(number_of(nodes, r[ix], dim) != number_of(nodes, r[iy], dim));
        assert(halves[tb[x] as int].i == nodes[rx as int].i);
        assert(halves[tb[y] as int].i == nodes[ry as int].i);
    }
}

/// Slicing a ring pushes no more triangles than the ring has nodes, less
/// two, leaves the links of the arena in order and the ring links of all
/// nodes outside the ring alone.
pub proof fn lemma_sliced_ring(
    nodes: Seq<Node>,
    tris: Seq<usize>,
    r: Seq<usize>,
    f: Frame,
    pass: Pass,
    depth: nat,
)
    requires
        links_ok(nodes),
        is_ring(nodes, r),
        nodes.len() + most_new_nodes(r.len() as int) <= usize::MAX,
    ensures
        slicing_ok(nodes, tris, r, f.dim, sliced(nodes, tris, r[0], f, pass, depth)),
    decreases depth, 2 * steps_left(pass) + 2, 0nat, 0nat,
{
    assert(1 <= r[0] < nodes.len());
    let start = if pass is Fresh && f.size != 0 {
        indexed(nodes, r[0], f.min_x, f.min_y, f.size)
    } else {
        nodes
    };
    if pass is Fresh && f.size != 0 {
        lemma_indexed_ok(nodes, r[0], f.min_x, f.min_y, f.size);
        lemma_indexed_ring(nodes, r, f.min_x, f.min_y, f.size);
    }
    lemma_ear_loop_ring(start, tris, r, 0, 0, f, pass, depth, start.len(), start.len());
    let done = ear_loop(start, tris, r[0], r[0], f, pass, depth, start.len(), start.len());
    assert(sliced(nodes, tris, r[0], f, pass, depth) == done);
    assert forall|k: int| 0 <= k < r.len() implies r.contains(#[trigger] r[k]) by {}
    if numbers_apart(nodes, r, f.dim) {
        assert forall|k: int| 0 <= k < r.len() implies #[trigger] r[k] < nodes.len() by {
            assert(1 <= r[k] < nodes.len());
        }
        lemma_numbers_within(nodes, r, start, r, f.dim);
    }
    lemma_slicing_within(nodes, tris, r, start, tris, r, f.dim, done);
}

/// Slicing a ring from the node at position `e` on, with the search for an
/// ear to end at position `s`, goes as it should.
#[verifier::spinoff_prover]
#[verifier::rlimit(80)]
pub proof fn lemma_ear_loop_ring(
    nodes: Seq<Node>,
    tris: Seq<usize>,
    r: Seq<usize>,
    e: int,
    s: int,
    f: Frame,
    pass: Pass,
    depth: nat,
    cuts: nat,
    steps: nat,
)
    requires
        links_ok(nodes),
        is_ring(nodes, r),
        0 <= e < r.len(),
        0 <= s < r.len(),
        nodes.len() + most_new_nodes(r.len() as int) <= usize::MAX,
    ensures
        slicing_ok(
            nodes,
            tris,
            r,
            f.dim,
            ear_loop(nodes, tris, r[e], r[s], f, pass, depth, cuts, steps),
        ),
    decreases depth, 2 * steps_left(pass) + 1, cuts, steps,
{
    let n = r.len() as int;
    let ear = r[e];
    let node = nodes[ear as int];
    assert(ring_link(nodes, r, e));
    assert(1 <= ear < nodes.len());
    let done = ear_loop(nodes, tris, ear, r[s], f, pass, depth, cuts, steps);
    let next_e = after(e, n);
    let apart = numbers_apart(nodes, r, f.dim);
    assert forall|k: int| 0 <= k < r.len() implies #[trigger] r[k] < nodes.len() by {
        assert(1 <= r[k] < nodes.len());
    }
    if node.prev_i == node.next_i {
    } else {
        assert(n >= 3) by {
            if n == 2 {
                assert(after(e, n) == before(e, n));
            }
        }
        if cuts > 0 && ear_ok(nodes, ear, f) {
            assert(ring_link(nodes, r, next_e));
            let j = after(next_e, n);
            let idx = if j < e {
                j
            } else {
                j - 1
            };
            lemma_remove_keeps_ring(nodes, r, e);
            lemma_unlinked_ok(nodes, node.links());
            lemma_unlinked_outside(nodes, r, e);
            let n1 = unlinked(nodes, node.links());
            let shorter = r.remove(e);
            assert(shorter[idx] == r[j]);
            let grown = with_triangle(
                tris,
                nodes[node.prev_i as int].i / f.dim,
                node.i / f.dim,
                nodes[node.next_i as int].i / f.dim,
            );
            lemma_ear_triangle(nodes, tris, r, e, f.dim);
            lemma_ear_loop_ring(
                n1,
                grown,
                shorter,
                idx,
                idx,
                f,
                pass,
                depth,
                (cuts - 1) as nat,
                nodes.len(),
            );
            assert forall|k: int| 0 <= k < shorter.len() implies r.contains(
                #[trigger] shorter[k],
            ) by {
                if k < e {
                    assert(shorter[k] == r[k]);
                } else {
                    assert(shorter[k] == r[k + 1]);
                }
            }
            assert(done == ear_loop(
                n1,
                grown,
                shorter[idx],
                shorter[idx],
                f,
                pass,
                depth,
                (cuts - 1) as nat,
                nodes.len(),
            ));
            if apart {
                lemma_numbers_within(nodes, r, n1, shorter, f.dim);
            }
            lemma_slicing_within(nodes, tris, r, n1, grown, shorter, f.dim, done);
        } else if node.next_i == r[s] || steps == 0 {
            lemma_ring_turned(nodes, r, next_e);
            lemma_turned_same_nodes(r, next_e);
            let round = turned(r, next_e);
            assert(round[0] == node.next_i);
            lemma_ring_fits(nodes, r);
            match pass {
                Pass::Fresh => {
                    lemma_filter_walk(nodes, round, 0, nodes.len(), nodes.len(), true);
                    let (n1, e1) = filtered(nodes, node.next_i, None);
                    assert((n1, e1) == crate::ring::filtered_from(
                        nodes,
                        round[0],
                        round[0],
                        nodes.len(),
                        nodes.len(),
                    ));
                    let t = choose|t: Seq<usize>| ring_left(n1, t, e1, round);
                    lemma_sliced_ring(n1, tris, t, f, Pass::Filtered, depth);
                    assert(done == sliced(n1, tris, e1, f, Pass::Filtered, depth));
                    lemma_outside_round(nodes, n1, r, round);
                    assert forall|k: int| 0 <= k < t.len() implies r.contains(
                        #[trigger] t[k],
                    ) by {
                        assert(round.contains(t[k]));
                    }
                    if apart {
                        lemma_numbers_within(nodes, r, n1, t, f.dim);
                    }
                    lemma_slicing_within(nodes, tris, r, n1, tris, t, f.dim, done);
                },
                Pass::Filtered => {
                    lemma_filter_walk(nodes, round, 0, nodes.len(), nodes.len(), true);
                    let (n1, e1) = filtered(nodes, node.next_i, None);
                    assert((n1, e1) == crate::ring::filtered_from(
                        nodes,
                        round[0],
                        round[0],
                        nodes.len(),
                        nodes.len(),
                    ));
                    let t = choose|t: Seq<usize>| ring_left(n1, t, e1, round);
                    lemma_ring_fits(n1, t);
                    lemma_cure_walk(n1, tris, t, 0, f.dim, n1.len(), n1.len());
                    let (n2, t2, e2) = cured(n1, tris, e1, f.dim);
                    let u = choose|u: Seq<usize>|
                        ring_left(n2, u, e2, t) && 2 * (t2.len() - tris.len()) <= 3 * (t.len()
                            - u.len());
                    lemma_sliced_ring(n2, t2, u, f, Pass::Cured, depth);
                    assert(done == sliced(n2, t2, e2, f, Pass::Cured, depth));
                    lemma_outside_round(nodes, n1, r, round);
                    assert forall|k: int| 0 <= k < t.len() implies r.contains(
                        #[trigger] t[k],
                    ) by {
                        assert(round.contains(t[k]));
                    }
                    lemma_outside_chain(nodes, n1, n2, r, t);
                    assert forall|k: int| 0 <= k < u.len() implies r.contains(
                        #[trigger] u[k],
                    ) by {
                        assert(t.contains(u[k]));
                        let x = choose|x: int| 0 <= x < t.len() && t[x] == u[k];
                        assert(r.contains(t[x]));
                    }
                    assert forall|v: int| 0 <= v < nodes.len() implies (#[trigger] n2[v]).i
                        == nodes[v].i by {
                        assert(n1[v].i == nodes[v].i);
                        assert(n2[v].i == n1[v].i);
                    }
                    if apart {
                        lemma_numbers_within(nodes, r, n1, t, f.dim);
                        lemma_numbers_within(nodes, r, n2, u, f.dim);
                    }
                    lemma_slicing_within(nodes, tris, r, n2, t2, u, f.dim, done);
                },
                Pass::Cured => {
                    if apart {
                        lemma_numbers_within(nodes, r, nodes, round, f.dim);
                    }
                    lemma_split_ring(nodes, tris, round, f, depth);
                    assert(done == split(nodes, tris, round[0], f, depth));
                    let halves = split(nodes, tris, round[0], f, depth);
                    lemma_outside_round(nodes, halves.0, r, round);
                },
            }
        } else {
            lemma_ear_loop_ring(
                nodes,
                tris,
                r,
                next_e,
                s,
                f,
                pass,
                depth,
                cuts,
                (steps - 1) as nat,
            );
        }
    }
}

/// What is left alone outside a ring is left alone outside the ring named
/// from another of its nodes on.
pub proof fn lemma_outside_round(before: Seq<Node>, after: Seq<Node>, r: Seq<usize>, round: Seq<usize>)
    requires
        outside_kept(before, after, round),
        forall|v: usize| round.contains(v) ==> r.contains(v),
    ensures
        outside_kept(before, after, r),
{
    assert forall|v: int| 0 <= v < before.len() && !r.contains(v as usize) implies (#[trigger] after[v]).prev_i
        == before[v].prev_i && after[v].next_i == before[v].next_i by {
        assert(!round.contains(v as usize));
    }
}

/// Splitting a ring of three or more nodes along its first valid diagonal
/// and slicing both halves goes as it should.
#[verifier::spinoff_prover]
#[verifier::rlimit(80)]
pub proof fn lemma_split_ring(nodes: Seq<Node>, tris: Seq<usize>, r: Seq<usize>, f: Frame, depth: nat)
    requires
        links_ok(nodes),
        is_ring(nodes, r),
        r.len() >= 3,
        nodes.len() + most_new_nodes(r.len() as int) <= usize::MAX,
    ensures
        slicing_ok(nodes, tris, r, f.dim, split(nodes, tris, r[0], f, depth)),
    decreases depth, 0nat, 0nat, 0nat,
{
    let n = r.len() as int;
    lemma_diagonal_of_a_ring(nodes, r);
    let done = split(nodes, tris, r[0], f, depth);
    match first_diagonal(nodes, r[0]) {
        Some((a, b)) => {
            if depth > 0 {
                assert(pair_fits(r, a, b));
                let (i, k) = choose|i: int, k: int| #[trigger] apart_on_ring(r, a, b, i, k);
                lemma_ring_turned(nodes, r, i);
                lemma_turned_same_nodes(r, i);
                let round = turned(r, i);
                assert(round[0] == a && round[k] == b);
                lemma_split_step(nodes, round, k);
                let joined = bridged(nodes, a, b);
                let c = (nodes.len() + 1) as usize;
                let (n1, a1) = filtered(joined, a, Some(joined[a as int].next_i));
                let (n2, c1) = filtered(n1, c, Some(n1[c as int].next_i));
                assert(split_in_halves(nodes, round, k, n2, a1, c1));
                let (ta, tb) = choose|ta: Seq<usize>, tb: Seq<usize>| #[trigger]
                    halves_ok(nodes, round, k, n2, a1, c1, ta, tb);
                let apart = numbers_apart(nodes, r, f.dim);
                assert forall|j: int| 0 <= j < r.len() implies #[trigger] r[j] < nodes.len() by {
                    assert(1 <= r[j] < nodes.len());
                }
                assert forall|j: int| 0 <= j < round.len() implies #[trigger] round[j]
                    < nodes.len() by {
                    assert(1 <= round[j] < nodes.len());
                }
                if apart {
                    lemma_numbers_within(nodes, r, nodes, round, f.dim);
                    lemma_numbers_within(nodes, round, n2, ta, f.dim);
                    lemma_numbers_in_half(nodes, round, k, n2, tb, f.dim);
                }
                lemma_sliced_ring(n2, tris, ta, f, Pass::Fresh, (depth - 1) as nat);
                let (n3, t3) = sliced(n2, tris, a1, f, Pass::Fresh, (depth - 1) as nat);
                lemma_other_ring_kept(n2, n3, ta, tb);
                assert forall|j: int| 0 <= j < tb.len() implies #[trigger] tb[j] < n2.len() by {
                    assert(1 <= tb[j] < n2.len());
                }
                assert forall|j: int| 0 <= j < tb.len() implies tb.contains(#[trigger] tb[j]) by {}
                if apart {
                    lemma_numbers_within(n2, tb, n3, tb, f.dim);
                }
                lemma_sliced_ring(n3, t3, tb, f, Pass::Fresh, (depth - 1) as nat);
                let last = sliced(n3, t3, c1, f, Pass::Fresh, (depth - 1) as nat);
                assert(done == last);
                lemma_outside_round(nodes, n2, r, round);
                assert forall|j: int| 0 <= j < ta.len() implies r.contains(#[trigger] ta[j])
                    || ta[j] >= nodes.len() by {
                    assert(round.contains(ta[j]));
                }
                assert forall|j: int| 0 <= j < tb.len() implies r.contains(#[trigger] tb[j])
                    || tb[j] >= nodes.len() by {
                    if tb[j] != nodes.len() && tb[j] != nodes.len() + 1 {
                        assert(round.contains(tb[j]));
                    }
                }
                lemma_outside_chain(nodes, n2, n3, r, ta);
                lemma_outside_chain(nodes, n3, last.0, r, tb);
                assert forall|v: int| 0 <= v < nodes.len() implies (#[trigger] last.0[v]).i
                    == nodes[v].i by {
                    assert(n2[v].i == nodes[v].i);
                    assert(n3[v].i == n2[v].i);
                    assert(last.0[v].i == n3[v].i);
                }
                if apart {
                    lemma_no_repeats_chain(tris, t3, last.1);
                }
                assert forall|j: int| 0 <= j < tris.len() implies #[trigger] last.1[j]
                    == tris[j] by {
                    assert(t3[j] == tris[j]);
                    assert(last.1[j] == t3[j]);
                }
            }
        },
        None => {},
    }
}

/// Whether the node `ear` can be cut off, judged by a walk round the ring.
pub fn is_ear(nodes: &Vec<Node>, ear: usize) -> (free: bool)
    requires
        links_ok(nodes@),
        1 <= ear < nodes.len(),
    ensures
        free == ear_free(nodes@, ear),
{
    let b: Node = nodes[ear];
    let a: Node = nodes[b.prev_i];
    let c: Node = nodes[b.next_i];
    if area(&a, &b, &c) >= 0 {
        return false;
    }
    let mut p: usize = c.next_i;
    let mut prev: usize = nodes[p].prev_i;
    let mut fuel: usize = nodes.len();
    while fuel > 0 && p != b.prev_i
        invariant
            links_ok(nodes@),
            1 <= ear < nodes.len(),
            1 <= p < nodes.len(),
            1 <= prev < nodes.len(),
            a == nodes@[b.prev_i as int],
            b == nodes@[ear as int],
            c == nodes@[b.next_i as int],
            orient(a, b, c) < 0,
            blocked_from(nodes@, ear, prev, p, fuel as nat) == !ear_free(nodes@, ear),
        decreases fuel,
    {
        let n: Node = nodes[p];
        if in_the_way(&a, &b, &c, &nodes[prev], &n, &nodes[n.next_i]) {
            return false;
        }
        prev = p;
        p = n.next_i;
        fuel = fuel - 1;
    }
    true
}

/// Cuts out the small self-intersections of the ring through `start`, one
/// triangle each, filters the ring, and returns a node of what is left.
pub fn cure_local_intersections(
    nodes: &mut Vec<Node>,
    start: usize,
    triangles: &mut Vec<usize>,
    dim: usize,
) -> (stop: usize)
    requires
        links_ok(old(nodes)@),
        1 <= start < old(nodes).len(),
        dim >= 1,
    ensures
        (final(nodes)@, final(triangles)@, stop) == cured(
            old(nodes)@,
            old(triangles)@,
            start,
            dim,
        ),
        final(nodes).len() == old(nodes).len(),
        links_ok(final(nodes)@),
        bound_kept(old(nodes)@, old(triangles)@, final(nodes)@, final(triangles)@, dim),
        1 <= stop < final(nodes).len(),
{
    let mut p: usize = start;
    let mut start: usize = start;
    let mut cuts: usize = nodes.len();
    let mut steps: usize = nodes.len();
    let ghost goal = cured(nodes@, triangles@, start, dim);
    loop
        invariant_except_break
            cured_from(nodes@, triangles@, p, start, dim, cuts as nat, steps as nat) == goal,
        invariant
            links_ok(nodes@),
            nodes.len() == old(nodes).len(),
            1 <= p < nodes.len(),
            1 <= start < nodes.len(),
            dim >= 1,
            bound_kept(old(nodes)@, old(triangles)@, nodes@, triangles@, dim),
        ensures
            (filtered(nodes@, p, None).0, triangles@, filtered(nodes@, p, None).1) == goal,
        decreases cuts, steps,
    {
        let n: Node = nodes[p];
        let next: Node = nodes[n.next_i];
        let a: Node = nodes[n.prev_i];
        let b: Node = nodes[next.next_i];
        let crossing: bool = !equals(&a, &b) && intersects(&a, &n, &next, &b) && locally_inside(
            nodes,
            n.prev_i,
            next.next_i,
        ) && locally_inside(nodes, next.next_i, n.prev_i);
        assert(crossing == crossing_at(nodes@, p));
        if cuts > 0 && crossing {
            let ghost n0 = nodes@;
            let ghost t0 = triangles@;
            push_triangle(nodes, triangles, n.prev_i, p, next.next_i, dim);
            assert(triangles@ == with_triangle(t0, a.i / dim, n.i / dim, b.i / dim));
            remove_node(nodes, n.link_info());
            let l = nodes[n.next_i].link_info();
            remove_node(nodes, l);
            assert(nodes@ == unlinked(
                unlinked(n0, n.links()),
                unlinked(n0, n.links())[n.next_i as int].links(),
            ));
            cuts = cuts - 1;
            steps = nodes.len();
            p = b.next_i;
            start = next.next_i;
            if p == start {
                break;
            }
        } else {
            p = n.next_i;
            if p == start || steps == 0 {
                break;
            }
            steps = steps - 1;
        }
    }
    filter_points(nodes, p, None)
}

/// Finds the first valid diagonal of the ring through `start`.
pub fn find_diagonal(nodes: &Vec<Node>, start: usize) -> (found: Option<(usize, usize)>)
    requires
        links_ok(nodes@),
        1 <= start < nodes.len(),
    ensures
        found == first_diagonal(nodes@, start),
        found matches Some((a, b)) ==> 1 <= a < nodes.len() && 1 <= b < nodes.len(),
{
    let mut a: usize = start;
    let mut fa: usize = nodes.len();
    loop
        invariant
            links_ok(nodes@),
            1 <= start < nodes.len(),
            1 <= a < nodes.len(),
            fa >= 1,
            diagonal_from(
                nodes@,
                a,
                nodes@[nodes@[a as int].next_i as int].next_i,
                start,
                fa as nat,
                nodes@.len(),
            ) == first_diagonal(nodes@, start),
        decreases fa,
    {
        let na: Node = nodes[a];
        let mut b: usize = nodes[na.next_i].next_i;
        let mut fb: usize = nodes.len();
        while fb > 0 && b != na.prev_i
            invariant
                links_ok(nodes@),
                1 <= a < nodes.len(),
                1 <= b < nodes.len(),
                na == nodes@[a as int],
                diagonal_from(nodes@, a, b, start, fa as nat, fb as nat) == first_diagonal(
                    nodes@,
                    start,
                ),
            decreases fb,
        {
            if na.i != nodes[b].i && is_valid_diagonal(nodes, a, b) {
                return Some((a, b));
            }
            b = nodes[b].next_i;
            fb = fb - 1;
        }
        a = na.next_i;
        fa = fa - 1;
        if a == start || fa == 0 {
            return None;
        }
    }
}

/// Splits the ring through `start` along its first valid diagonal and
/// slices both halves.
pub fn split_earcut(
    nodes: &mut Vec<Node>,
    start: usize,
    triangles: &mut Vec<usize>,
    f: Frame,
    depth: usize,
)
    requires
        links_ok(old(nodes)@),
        1 <= start < old(nodes).len(),
        f.dim >= 1,
        f.size >= 0,
    ensures
        (final(nodes)@, final(triangles)@) == split(
            old(nodes)@,
            old(triangles)@,
            start,
            f,
            depth as nat,
        ),
        old(nodes).len() <= final(nodes).len(),
        links_ok(final(nodes)@),
        bound_kept(old(nodes)@, old(triangles)@, final(nodes)@, final(triangles)@, f.dim),
    decreases depth, 0nat,
{
    let (a, b) = match find_diagonal(nodes, start) {
        Some(d) => d,
        None => {
            return ;
        },
    };
    if depth == 0 {
        return ;
    }
    let c: usize = split_polygon(nodes, a, b);
    let ghost n1 = nodes@;
    let end: usize = nodes[a].next_i;
    let a: usize = filter_points(nodes, a, Some(end));
    let ghost n2 = nodes@;
    let end: usize = nodes[c].next_i;
    let c: usize = filter_points(nodes, c, Some(end));
    let ghost n3 = nodes@;
    earcut_linked(nodes, a, triangles, f, Pass::Fresh, depth - 1);
    let ghost n4 = nodes@;
    let ghost t4 = triangles@;
    earcut_linked(nodes, c, triangles, f, Pass::Fresh, depth - 1);
    proof {
        let n0 = old(nodes)@;
        let t0 = old(triangles)@;
        lemma_bound_nodes(n0, t0, n0, t0, n1, f.dim);
        lemma_bound_nodes(n0, t0, n1, t0, n2, f.dim);
        lemma_bound_nodes(n0, t0, n2, t0, n3, f.dim);
        lemma_bound_chain(n0, t0, n3, t0, n4, t4, f.dim);
        lemma_bound_chain(n0, t0, n4, t4, nodes@, triangles@, f.dim);
    }
}

/// Slices the ring through `ear` into triangles, which are pushed to
/// `triangles` as triples of vertex numbers.
pub fn earcut_linked(
    nodes: &mut Vec<Node>,
    ear: usize,
    triangles: &mut Vec<usize>,
    f: Frame,
    pass: Pass,
    depth: usize,
)
    requires
        links_ok(old(nodes)@),
        1 <= ear < old(nodes).len(),
        f.dim >= 1,
        f.size >= 0,
    ensures
        (final(nodes)@, final(triangles)@) == sliced(
            old(nodes)@,
            old(triangles)@,
            ear,
            f,
            pass,
            depth as nat,
        ),
        old(nodes).len() <= final(nodes).len(),
        links_ok(final(nodes)@),
        bound_kept(old(nodes)@, old(triangles)@, final(nodes)@, final(triangles)@, f.dim),
    decreases depth, 1 + steps_left(pass),
{
    if f.size != 0 {
        if let Pass::Fresh = pass {
            index_curve(nodes, ear, f.min_x, f.min_y, f.size);
        }
    }
    let mut cur: usize = ear;
    let mut stop: usize = ear;
    let mut cuts: usize = nodes.len();
    let mut steps: usize = nodes.len();
    let ghost goal = sliced(old(nodes)@, old(triangles)@, ear, f, pass, depth as nat);
    loop
        invariant
            links_ok(nodes@),
            nodes.len() == old(nodes).len(),
            1 <= cur < nodes.len(),
            1 <= stop < nodes.len(),
            f.dim >= 1,
            f.size >= 0,
            bound_kept(old(nodes)@, old(triangles)@, nodes@, triangles@, f.dim),
            goal == sliced(old(nodes)@, old(triangles)@, ear, f, pass, depth as nat),
            ear_loop(nodes@, triangles@, cur, stop, f, pass, depth as nat, cuts as nat, steps as nat)
                == goal,
        decreases cuts, steps,
    {
        let e: Node = nodes[cur];
        if e.prev_i == e.next_i {
            return ;
        }
        let free: bool = cuts > 0 && (if f.size != 0 {
            is_ear_hashed(nodes, cur, f.min_x, f.min_y, f.size)
        } else {
            is_ear(nodes, cur)
        });
        if free {
            let after: usize = nodes[e.next_i].next_i;
            push_triangle(nodes, triangles, e.prev_i, cur, e.next_i, f.dim);
            remove_node(nodes, e.link_info());
            cuts = cuts - 1;
            steps = nodes.len();
            cur = after;
            stop = after;
            continue ;
        }
        cur = e.next_i;
        if cur == stop || steps == 0 {
            let ghost n0 = old(nodes)@;
            let ghost t0 = old(triangles)@;
            let ghost n1 = nodes@;
            let ghost t1 = triangles@;
            match pass {
                Pass::Fresh => {
                    let rest: usize = filter_points(nodes, cur, None);
                    let ghost n2 = nodes@;
                    earcut_linked(nodes, rest, triangles, f, Pass::Filtered, depth);
                    proof {
                        lemma_bound_nodes(n0, t0, n1, t1, n2, f.dim);
                        lemma_bound_chain(n0, t0, n2, t1, nodes@, triangles@, f.dim);
                    }
                },
                Pass::Filtered => {
                    let rest: usize = filter_points(nodes, cur, None);
                    let ghost n2 = nodes@;
                    let rest: usize = cure_local_intersections(nodes, rest, triangles, f.dim);
                    let ghost n3 = nodes@;
                    let ghost t3 = triangles@;
                    earcut_linked(nodes, rest, triangles, f, Pass::Cured, depth);
                    proof {
                        lemma_bound_nodes(n0, t0, n1, t1, n2, f.dim);
                        lemma_bound_chain(n0, t0, n2, t1, n3, t3, f.dim);
                        lemma_bound_chain(n0, t0, n3, t3, nodes@, triangles@, f.dim);
                    }
                },
                Pass::Cured => {
                    split_earcut(nodes, cur, triangles, f, depth);
                    proof {
                        lemma_bound_chain(n0, t0, n1, t1, nodes@, triangles@, f.dim);
                    }
                },
            }
            return ;
        }
        steps = steps - 1;
    }
}

/// The working set of a triangulation: the coordinate buffer, which is only
/// read, the node arena and the list of holes. One store can serve many
/// triangulations, one after the other; each starts by clearing it.
pub struct Store<'a> {
    /// The coordinate buffer.
    pub data: &'a [i32],
    /// The node arena.
    pub nodes: &'a mut Vec<Node>,
    /// The leftmost node of each hole, with its x.
    pub queue: &'a mut Vec<(usize, i32)>,
}

impl<'a> Store<'a> {
    /// A store over `data` that works in `nodes` and `queue`.
    pub fn new(data: &'a [i32], nodes: &'a mut Vec<Node>, queue: &'a mut Vec<(usize, i32)>) -> (store:
        Self)
        ensures
            store.data@ == data@,
            store.nodes@ == old(nodes)@.push(dummy()),
            store.queue@ == old(queue)@,
            final(nodes)@ == final(store.nodes)@,
            final(queue)@ == final(store.queue)@,
    {
        let store = Self { data, nodes, queue };
        store.nodes.push(Node::new(0, i32::MAX, i32::MAX));
        store
    }

    /// Clears the arena, with room for `capacity` nodes, down to its dummy.
    pub fn reset(&mut self, capacity: usize)
        ensures
            final(self).nodes@ == seq![dummy()],
            final(self).data@ == old(self).data@,
            final(self).queue@ == old(self).queue@,
    {
        self.nodes.clear();
        self.nodes.reserve(capacity);
        self.nodes.push(Node::new(0, i32::MAX, i32::MAX));
    }
}

/// The least of `m` and the coordinates at the positions `i`, `i + dim`,
/// and so on below `end`.
pub open spec fn lowest(data: Seq<i32>, i: int, end: int, dim: int, m: i32) -> i32
    decreases (if i < end { end - i } else { 0 }),
{
    if i < end && dim > 0 {
        lowest(data, i + dim, end, dim, if data[i] < m { data[i] } else { m })
    } else {
        m
    }
}

/// The greatest of `m` and the coordinates at the positions `i`, `i + dim`,
/// and so on below `end`.
pub open spec fn highest(data: Seq<i32>, i: int, end: int, dim: int, m: i32) -> i32
    decreases (if i < end { end - i } else { 0 }),
{
    if i < end && dim > 0 {
        highest(data, i + dim, end, dim, if data[i] > m { data[i] } else { m })
    } else {
        m
    }
}

/// The frame of a triangulation. A buffer of more than 80 vertices has its
/// rings indexed, over the bounding box of the outer ring, which ends at
/// position `outer_len`; a box without extent is not indexed.
pub open spec fn frame_of(data: Seq<i32>, outer_len: int, dim: usize) -> Frame {
    if data.len() > 80 * dim {
        let min_x = lowest(data, dim as int, outer_len, dim as int, data[0]);
        let max_x = highest(data, dim as int, outer_len, dim as int, data[0]);
        let min_y = lowest(data, dim + 1, outer_len + 1, dim as int, data[1]);
        let max_y = highest(data, dim + 1, outer_len + 1, dim as int, data[1]);
        let width = max_x - min_x;
        let height = max_y - min_y;
        Frame { dim, min_x, min_y, size: (if width >= height { width } else { height }) as i64 }
    } else {
        Frame { dim, min_x: 0, min_y: 0, size: 0 }
    }
}

/// Where the outer ring ends in the buffer.
pub open spec fn outer_end(data: Seq<i32>, holes: Seq<usize>, dim: usize) -> int {
    if holes.len() > 0 {
        holes[0] * dim
    } else {
        data.len() as int
    }
}

/// The triangle list `tris` followed by the triangles of the polygon: the
/// outer ring and the holes are built in a fresh arena, the holes are
/// joined to the outer ring, and the single ring is sliced. An outer ring
/// of fewer than three vertices has no triangles.
pub open spec fn triangulated_onto(tris: Seq<usize>, data: Seq<i32>, holes: Seq<usize>, dim: usize) -> Seq<
    usize,
> {
    let outer_len = outer_end(data, holes, dim);
    let (built, outer) = ring_built(seq![dummy()], data, 0, outer_len, dim as int, true);
    match outer {
        Some(o) => if built[o as int].next_i == built[o as int].prev_i {
            tris
        } else {
            let (joined, ring) = if holes.len() > 0 {
                holes_eliminated(built, data, holes, o, dim as int)
            } else {
                (built, o)
            };
            sliced(joined, tris, ring, frame_of(data, outer_len, dim), Pass::Fresh, joined.len()).1
        },
        None => tris,
    }
}

/// The triangles of the polygon whose vertices `data` holds, `dim`
/// coordinates each, and whose holes start at the vertices `holes`: three
/// vertex numbers for each triangle.
pub open spec fn triangulation(data: Seq<i32>, holes: Seq<usize>, dim: usize) -> Seq<usize> {
    if data.len() < 3 {
        Seq::empty()
    } else {
        triangulated_onto(Seq::empty(), data, holes, dim)
    }
}

/// An outer ring of fewer than three vertices has no triangles, whatever
/// the holes are.
pub proof fn lemma_small_ring_has_no_triangles(
    tris: Seq<usize>,
    data: Seq<i32>,
    holes: Seq<usize>,
    dim: usize,
)
    requires
        input_ok(data, holes, dim),
        outer_end(data, holes, dim) < 3 * dim,
    ensures
        triangulated_onto(tris, data, holes, dim) == tris,
{
    let end = outer_end(data, holes, dim);
    let d = dim as int;
    if holes.len() > 0 {
        crate::geometry::lemma_aligned_diff(holes[0] as int, 0, d);
    }
    assert(end % d == 0);
    assert(end <= data.len());
    let arena = seq![dummy()];
    if end > 0 {
        crate::geometry::lemma_step_aligned(0, end, d);
        if end > d {
            assert((end - d) % d == 0) by {
                crate::geometry::lemma_aligned(end, 1, d);
            }
            crate::geometry::lemma_step_aligned(0, end - d, d);
            assert(end == 2 * d) by {
                if end > 2 * d {
                    assert((end - 2 * d) % d == 0) by {
                        crate::geometry::lemma_aligned(end, 2, d);
                    }
                    crate::geometry::lemma_step_aligned(0, end - 2 * d, d);
                }
            }
        }
        reveal_with_fuel(crate::ring::ring_forward, 4);
        reveal_with_fuel(crate::ring::ring_backward, 4);
        let (built, outer) = ring_built(arena, data, 0, end, d, true);
        assert(outer is Some);
        assert(built[outer->0 as int].next_i == built[outer->0 as int].prev_i);
    }
}

/// Nodes that were pushed for different whole vertices stand for vertices
/// of different numbers, whatever ring they form.
pub proof fn lemma_whole_vertices_apart(
    nodes: Seq<Node>,
    base: nat,
    count: nat,
    r: Seq<usize>,
    dim: usize,
)
    requires
        dim > 0,
        base + count <= nodes.len() <= usize::MAX,
        forall|j: int, k: int|
            0 <= j < k < count ==> #[trigger] vertex_at(nodes, base as int, j)
                != #[trigger] vertex_at(nodes, base as int, k),
        forall|k: int| 0 <= k < count ==> (#[trigger] vertex_at(nodes, base as int, k)) % (dim as int) == 0,
        forall|k: int| 0 <= k < r.len() ==> new_nodes(base, count).contains(#[trigger] r[k]),
    ensures
        numbers_apart(nodes, r, dim),
{
    let d = dim as int;
    let pushed = new_nodes(base, count);
    assert forall|j: int, k: int|
        0 <= j < r.len() && 0 <= k < r.len() && r[j] != r[k] implies number_of(
        nodes,
        #[trigger] r[j],
        dim,
    ) != number_of(nodes, #[trigger] r[k], dim) by {
        assert(pushed.contains(r[j]) && pushed.contains(r[k]));
        let x = choose|x: int| 0 <= x < pushed.len() && pushed[x] == r[j];
        let y = choose|y: int| 0 <= y < pushed.len() && pushed[y] == r[k];
        assert(x != y);
        let vx = vertex_at(nodes, base as int, x);
        let vy = vertex_at(nodes, base as int, y);
        assert(vx != vy) by {
            if x < y {
                assert(vertex_at(nodes, base as int, x) != vertex_at(nodes, base as int, y));
            } else {
                assert(vertex_at(nodes, base as int, y) != vertex_at(nodes, base as int, x));
            }
        }
        assert(vx % d == 0 && vy % d == 0);
        vstd::arithmetic::div_mod::lemma_fundamental_div_mod(vx, d);
        vstd::arithmetic::div_mod::lemma_fundamental_div_mod(vy, d);
        assert(nodes[r[j] as int].i == vx);
        assert(nodes[r[k] as int].i == vy);
    }
}

/// A polygon without holes has no more triangles than it has vertices, less
/// two, and each of its triangles has three different vertices.
pub proof fn lemma_triangle_count(data: Seq<i32>, dim: usize)
    requires
        input_ok(data, Seq::empty(), dim),
        data.len() <= usize::MAX / 4,
    ensures
        triangulation(data, Seq::empty(), dim).len() <= 3 * most_triangles(
            data.len() as int / dim as int,
        ),
        no_repeats_from(triangulation(data, Seq::empty(), dim), 0),
{
    let holes: Seq<usize> = Seq::empty();
    let d = dim as int;
    let end = data.len() as int;
    let arena = seq![dummy()];
    vstd::arithmetic::div_mod::lemma_div_pos_is_pos(end, d);
    if data.len() >= 3 {
        assert(outer_end(data, holes, dim) == end);
        lemma_vertex_count(end, d);
        let count = vertex_count(0, end, d);
        assert(count * 2 <= end) by {
            vstd::arithmetic::div_mod::lemma_fundamental_div_mod(end, d);
            assert(end == d * (end / d));
            assert(2 * (end / d) <= d * (end / d)) by (nonlinear_arith)
                requires
                    d >= 2,
                    end / d >= 0,
            ;
        }
        assert(links_ok(arena));
        lemma_built_ring_is_circular(arena, data, 0, end, d, true);
        let (built, outer) = ring_built(arena, data, 0, end, d, true);
        let pushed = new_nodes(arena.len(), count);
        let o = outer->0;
        if built[o as int].next_i != built[o as int].prev_i {
            let ring = if is_ring(built, pushed) && (o == pushed.last() || o == pushed[0]) {
                pushed
            } else {
                pushed.drop_last()
            };
            assert(is_ring(built, ring));
            let at = if o == ring[0] {
                0int
            } else {
                ring.len() - 1
            };
            assert(ring[at] == o);
            lemma_ring_turned(built, ring, at);
            lemma_turned_same_nodes(ring, at);
            let round = turned(ring, at);
            let f = frame_of(data, end, dim);
            assert forall|k: int| 0 <= k < round.len() implies pushed.contains(
                #[trigger] round[k],
            ) by {
                assert(ring.contains(round[k]));
                let x = choose|x: int| 0 <= x < ring.len() && ring[x] == round[k];
                assert(ring[x] == pushed[x]);
            }
            lemma_whole_vertices_apart(built, arena.len(), count, round, dim);
            lemma_sliced_ring(built, Seq::empty(), round, f, Pass::Fresh, built.len());
            assert(triangulated_onto(Seq::empty(), data, holes, dim) == sliced(
                built,
                Seq::empty(),
                o,
                f,
                Pass::Fresh,
                built.len(),
            ).1);
        }
    }
}

/// What a triangulation asks of its input: at least two coordinates per
/// vertex, a buffer of whole vertices, and hole offsets that fit it.
pub open spec fn input_ok(data: Seq<i32>, holes: Seq<usize>, dim: usize) -> bool {
    &&& dim >= 2
    &&& data.len() % (dim as nat) == 0
    &&& holes_ok(data, holes, dim as int)
}

/// The frame of a triangulation of `data`, whose outer ring ends at
/// `outer_len`.
pub fn frame(data: &[i32], outer_len: usize, dim: usize) -> (f: Frame)
    requires
        dim >= 2,
        outer_len <= data.len(),
        outer_len % dim == 0,
    ensures
        f == frame_of(data@, outer_len as int, dim),
        f.size >= 0,
        f.dim == dim,
{
    if dim > usize::MAX / 80 || data.len() <= 80 * dim {
        return Frame { dim, min_x: 0, min_y: 0, size: 0 };
    }
    let mut min_x: i32 = data[0];
    let mut min_y: i32 = data[1];
    let mut max_x: i32 = data[0];
    let mut max_y: i32 = data[1];
    let mut i: usize = dim;
    while i < outer_len
        invariant
            dim >= 2,
            dim <= i,
            outer_len <= data.len(),
            outer_len % dim == 0,
            i % dim == 0,
            min_x <= max_x,
            min_y <= max_y,
            lowest(data@, i as int, outer_len as int, dim as int, min_x) == lowest(
                data@,
                dim as int,
                outer_len as int,
                dim as int,
                data@[0],
            ),
            highest(data@, i as int, outer_len as int, dim as int, max_x) == highest(
                data@,
                dim as int,
                outer_len as int,
                dim as int,
                data@[0],
            ),
            lowest(data@, i + 1, outer_len + 1, dim as int, min_y) == lowest(
                data@,
                dim + 1,
                outer_len + 1,
                dim as int,
                data@[1],
            ),
            highest(data@, i + 1, outer_len + 1, dim as int, max_y) == highest(
                data@,
                dim + 1,
                outer_len + 1,
                dim as int,
                data@[1],
            ),
        decreases outer_len - i,
    {
        proof {
            crate::geometry::lemma_step_aligned(i as int, outer_len as int, dim as int);
            vstd::arithmetic::div_mod::lemma_mod_add_multiples_vanish(i as int, dim as int);
        }
        let x: i32 = data[i];
        let y: i32 = data[i + 1];
        if x < min_x {
            min_x = x;
        }
        if y < min_y {
            min_y = y;
        }
        if x > max_x {
            max_x = x;
        }
        if y > max_y {
            max_y = y;
        }
        i = i + dim;
    }
    let width: i64 = max_x as i64 - min_x as i64;
    let height: i64 = max_y as i64 - min_y as i64;
    Frame { dim, min_x, min_y, size: if width >= height {
        width
    } else {
        height
    } }
}

/// Triangulates the polygon in the store's buffer and pushes its triangles
/// to `triangles_out`, three vertex numbers each. The store is cleared
/// first: what is pushed depends on the buffer, the holes and `dim` alone,
/// whatever the store held before. The list keeps what it held; what is
/// pushed are whole triangles between vertices of the buffer, whatever the
/// list held.
pub fn earcut_impl(
    store: &mut Store,
    hole_indices: &[usize],
    triangles_out: &mut Vec<usize>,
    dim: usize,
)
    requires
        input_ok(old(store).data@, hole_indices@, dim),
    ensures
        final(triangles_out)@ == triangulated_onto(
            old(triangles_out)@,
            old(store).data@,
            hole_indices@,
            dim,
        ),
        final(store).data@ == old(store).data@,
        list_grown(old(triangles_out)@, final(triangles_out)@),
        entries_from(
            final(triangles_out)@,
            old(triangles_out)@.len() as int,
            old(store).data@.len() as int / dim as int,
        ),
        whole_triangles(old(triangles_out)@, old(store).data@.len() as int / dim as int)
            ==> whole_triangles(final(triangles_out)@, old(store).data@.len() as int / dim as int),
{
    let data: &[i32] = store.data;
    triangles_out.reserve(data.len());
    store.reset(data.len() / 2);
    let has_holes: bool = hole_indices.len() > 0;
    assert(holes_ok(data@, hole_indices@, dim as int));
    assert(has_holes ==> hole_indices@[0] * dim <= data.len());
    let outer_len: usize = if has_holes {
        hole_indices[0] * dim
    } else {
        data.len()
    };
    proof {
        if has_holes {
            crate::geometry::lemma_aligned_diff(hole_indices@[0] as int, 0, dim as int);
        }
    }
    let mut outer: usize = match linked_list(store.nodes, data, 0, outer_len, dim, true) {
        Some(o) => o,
        None => {
            return ;
        },
    };
    if store.nodes[outer].next_i == store.nodes[outer].prev_i {
        return ;
    }
    if has_holes {
        outer = eliminate_holes(store.nodes, store.queue, data, hole_indices, outer, dim);
    }
    let f: Frame = frame(data, outer_len, dim);
    let depth: usize = store.nodes.len();
    let ghost joined = store.nodes@;
    earcut_linked(store.nodes, outer, triangles_out, f, Pass::Fresh, depth);
    proof {
        let n = data@.len() as int / dim as int;
        vstd::arithmetic::div_mod::lemma_fundamental_div_mod(data@.len() as int, dim as int);
        assert(n * dim == data@.len()) by (nonlinear_arith)
            requires
                data@.len() == dim * n + 0,
        ;
        assert(vertices_below(seq![dummy()], data@.len() as int));
        assert(vertices_below(joined, n * dim));
        assert(arena_below(joined, dim, n));
        if whole_triangles(old(triangles_out)@, n) {
            assert(bounded(joined, old(triangles_out)@, dim, n));
            lemma_bound_step(
                joined,
                old(triangles_out)@,
                store.nodes@,
                triangles_out@,
                dim,
                n,
            );
        }
    }
}

/// Triangulates the polygon whose vertices `data` holds, `dim` coordinates
/// each, and whose holes start at the vertices `hole_indices`. Returns three
/// vertex numbers for each triangle, each the number of a vertex of the
/// buffer. A buffer of fewer than three coordinates has no triangles. A
/// polygon without holes has no more triangles than vertices, less two, and
/// none of them repeats a vertex; a strictly convex one has exactly as
/// many, and they have the area of the polygon.
pub fn earcut(data: &[i32], hole_indices: &[usize], dim: usize) -> (triangles: Vec<usize>)
    requires
        data.len() < 3 || input_ok(data@, hole_indices@, dim),
    ensures
        triangles@ == triangulation(data@, hole_indices@, dim),
        triangles.len() % 3 == 0,
        forall|t: int| 0 <= t < triangles.len() ==> triangles[t] < data.len() / dim,
        data.len() < 3 ==> triangles.len() == 0,
        hole_indices.len() == 0 && 3 <= data.len() <= usize::MAX / 4 ==> triangles.len() <= 3
            * most_triangles(data.len() as int / dim as int),
        hole_indices.len() == 0 && data.len() <= usize::MAX / 4 ==> no_repeats_from(
            triangles@,
            0,
        ),
        hole_indices.len() == 0 && 3 <= data.len() <= usize::MAX / 4 && strictly_convex(
            data@,
            dim as int,
        ) ==> triangles.len() == 3 * (data.len() as int / dim as int - 2) && triangles_area(
            data@,
            triangles@,
            dim,
            0,
        ) == polygon_area(data@, hole_indices@, dim),
{
    proof {
        if hole_indices.len() == 0 && 3 <= data.len() <= usize::MAX / 4 {
            assert(hole_indices@ =~= Seq::<usize>::empty());
            lemma_triangle_count(data@, dim);
            if strictly_convex(data@, dim as int) {
                lemma_convex_polygon(data@, dim);
            }
        }
    }
    let mut nodes: Vec<Node> = Vec::new();
    let mut queue: Vec<(usize, i32)> = Vec::new();
    let mut triangles_out: Vec<usize> = Vec::new();
    if data.len() < 3 {
        return triangles_out;
    }
    let mut store = Store::new(data, &mut nodes, &mut queue);
    earcut_impl(&mut store, hole_indices, &mut triangles_out, dim);
    triangles_out
}

} // verus!
