//! Walks along a ring: building it from the coordinate buffer, dropping the
//! points that lie on a line with their neighbours, and the tests that a
//! diagonal has to pass.
//!
//! A walk follows the `next_i` links. It is cut off after as many steps as
//! the arena has nodes, which is more than any ring can have.

use vstd::prelude::*;
use crate::arena::{
    after, before, insert_node, inserted, is_ring, lemma_first_node_is_a_ring,
    lemma_insert_keeps_ring, lemma_outside_chain, lemma_remove_keeps_ring, lemma_ring_fits,
    lemma_ring_turned, lemma_unlinked_ok, lemma_unlinked_outside, links_ok, outside_kept,
    remove_node, ring_link, same_vertices, turned, unlinked, vertices_below, vertices_kept, Node,
};
use crate::geometry::{
    area, equals, intersects, mul_small, orient, same_point, segments_meet, shoelace,
    signed_area,
};

verus! {

/// Whether the way from `a` to `b` starts inside the polygon, judged by the
/// two edges that meet in `a`.
pub open spec fn leaves_inward(nodes: Seq<Node>, a: usize, b: usize) -> bool {
    let na = nodes[a as int];
    let nb = nodes[b as int];
    let ap = nodes[na.prev_i as int];
    let an = nodes[na.next_i as int];
    if orient(ap, na, an) < 0 {
        orient(na, nb, an) >= 0 && orient(na, ap, nb) >= 0
    } else {
        orient(na, nb, ap) < 0 || orient(na, an, nb) < 0
    }
}

/// Whether the sector of the polygon at `m` holds the sector at `p`, for two
/// nodes on the same grid point.
pub open spec fn sector_holds(nodes: Seq<Node>, m: usize, p: usize) -> bool {
    let nm = nodes[m as int];
    let np = nodes[p as int];
    orient(nodes[nm.prev_i as int], nm, nodes[np.prev_i as int]) < 0 && orient(
        nodes[np.next_i as int],
        nm,
        nodes[nm.next_i as int],
    ) < 0
}

/// Whether `p` lies further left than `q`, or as far left and lower.
pub open spec fn lower_left(p: Node, q: Node) -> bool {
    p.x < q.x || (p.x == q.x && p.y < q.y)
}

/// The leftmost node on the walk from `p` back to `start`, where `best` is
/// the leftmost node seen before `p`. Of several leftmost nodes the lowest
/// is taken, and of several lowest the first.
pub open spec fn leftmost_from(nodes: Seq<Node>, p: usize, best: usize, start: usize, fuel: nat) -> usize
    decreases fuel,
{
    let better = if lower_left(nodes[p as int], nodes[best as int]) {
        p
    } else {
        best
    };
    let next = nodes[p as int].next_i;
    if fuel <= 1 || next == start {
        better
    } else {
        leftmost_from(nodes, next, better, start, (fuel - 1) as nat)
    }
}

/// The leftmost node of the ring through `start`.
pub open spec fn leftmost(nodes: Seq<Node>, start: usize) -> usize {
    leftmost_from(nodes, start, start, start, nodes.len())
}

/// Whether the edge that leaves `p` shares no vertex with the diagonal from
/// `a` to `b` and has a point in common with it.
pub open spec fn edge_crosses(nodes: Seq<Node>, p: usize, a: usize, b: usize) -> bool {
    let np = nodes[p as int];
    let nn = nodes[np.next_i as int];
    let na = nodes[a as int];
    let nb = nodes[b as int];
    &&& np.i != na.i
    &&& np.i != nb.i
    &&& nn.i != na.i
    &&& nn.i != nb.i
    &&& segments_meet(np, nn, na, nb)
}

/// Whether one of the edges on the walk from `p` back to `a` crosses the
/// diagonal from `a` to `b`.
pub open spec fn crossed_from(nodes: Seq<Node>, p: usize, a: usize, b: usize, fuel: nat) -> bool
    decreases fuel,
{
    let next = nodes[p as int].next_i;
    edge_crosses(nodes, p, a, b) || (fuel > 1 && next != a && crossed_from(
        nodes,
        next,
        a,
        b,
        (fuel - 1) as nat,
    ))
}

/// Whether an edge of the ring through `a` crosses the diagonal from `a` to
/// `b`.
pub open spec fn diagonal_crossed(nodes: Seq<Node>, a: usize, b: usize) -> bool {
    crossed_from(nodes, a, a, b, nodes.len())
}

/// Whether the edge that leaves `p` crosses the ray that runs from the point
/// `(px2 / 2, py2 / 2)` towards greater x.
pub open spec fn edge_right_of(nodes: Seq<Node>, p: usize, px2: int, py2: int) -> bool {
    let np = nodes[p as int];
    let nn = nodes[np.next_i as int];
    let dy = nn.y - np.y;
    let l = (px2 - 2 * np.x) * dy;
    let r = (nn.x - np.x) * (py2 - 2 * np.y);
    &&& (2 * np.y > py2) != (2 * nn.y > py2)
    &&& dy != 0
    &&& ((dy > 0 && l < r) || (dy < 0 && l > r))
}

/// Whether the ray from `(px2 / 2, py2 / 2)` towards greater x crosses an
/// odd number of the edges on the walk from `p` back to `a`.
pub open spec fn crossings_odd(nodes: Seq<Node>, p: usize, a: usize, px2: int, py2: int, fuel: nat) -> bool
    decreases fuel,
{
    let next = nodes[p as int].next_i;
    let rest = if fuel <= 1 || next == a {
        false
    } else {
        crossings_odd(nodes, next, a, px2, py2, (fuel - 1) as nat)
    };
    edge_right_of(nodes, p, px2, py2) != rest
}

/// Whether the midpoint of the diagonal from `a` to `b` lies inside the ring
/// through `a`.
pub open spec fn midpoint_inside(nodes: Seq<Node>, a: usize, b: usize) -> bool {
    let na = nodes[a as int];
    let nb = nodes[b as int];
    crossings_odd(nodes, a, a, na.x + nb.x, na.y + nb.y, nodes.len())
}

/// Whether the diagonal from `a` to `b` may split the ring: it meets no
/// other vertex's edge, and either it runs inside the polygon and cuts off no
/// sector of zero area, or it joins two nodes on one grid point whose
/// corners are both reflex.
pub open spec fn diagonal_valid(nodes: Seq<Node>, a: usize, b: usize) -> bool {
    let na = nodes[a as int];
    let nb = nodes[b as int];
    let an = nodes[na.next_i as int];
    let ap = nodes[na.prev_i as int];
    let bn = nodes[nb.next_i as int];
    let bp = nodes[nb.prev_i as int];
    &&& an.i != nb.i
    &&& ap.i != nb.i
    &&& !diagonal_crossed(nodes, a, b)
    &&& ({
        ||| (leaves_inward(nodes, a, b) && leaves_inward(nodes, b, a) && midpoint_inside(
            nodes,
            a,
            b,
        ) && (orient(ap, na, bp) != 0 || orient(na, bp, nb) != 0))
        ||| (same_point(na, nb) && orient(ap, na, an) > 0 && orient(bp, nb, bn) > 0)
    })
}

/// Whether the node `p` is dropped by the filter: it is no single-point
/// hole, and it lies on its successor or on a line with its neighbours.
pub open spec fn superfluous(nodes: Seq<Node>, p: usize) -> bool {
    let n = nodes[p as int];
    let next = nodes[n.next_i as int];
    let prev = nodes[n.prev_i as int];
    !n.steiner && (same_point(n, next) || orient(prev, n, next) == 0)
}

/// The arena and the node that the filter ends on, for a filter that stands
/// at `p`, stops at `end`, may still drop `cuts` nodes and may still take
/// `steps` steps before the next drop. After a drop the filter goes on from
/// the node before the dropped one and comes round to it once more.
pub open spec fn filtered_from(nodes: Seq<Node>, p: usize, end: usize, cuts: nat, steps: nat) -> (
    Seq<Node>,
    usize,
)
    decreases cuts, steps,
{
    let n = nodes[p as int];
    if superfluous(nodes, p) {
        if cuts == 0 {
            (nodes, end)
        } else {
            let after = unlinked(nodes, n.links());
            if n.prev_i == n.next_i {
                (after, n.prev_i)
            } else {
                filtered_from(after, n.prev_i, n.prev_i, (cuts - 1) as nat, nodes.len())
            }
        }
    } else if n.next_i == end || steps == 0 {
        (nodes, end)
    } else {
        filtered_from(nodes, n.next_i, end, cuts, (steps - 1) as nat)
    }
}

/// The arena after the ring through `start` was filtered from `start` to
/// `end`, and the node that the filter ended on.
pub open spec fn filtered(nodes: Seq<Node>, start: usize, end: Option<usize>) -> (Seq<Node>, usize) {
    let stop = match end {
        Some(e) => e,
        None => start,
    };
    filtered_from(nodes, start, stop, nodes.len(), nodes.len())
}

/// The arena after the vertices from position `i` up to `end` were linked in
/// behind `last`, in the buffer's order, and the node of the last one.
pub open spec fn ring_forward(
    nodes: Seq<Node>,
    data: Seq<i32>,
    i: int,
    end: int,
    dim: int,
    last: Option<usize>,
) -> (Seq<Node>, Option<usize>)
    decreases (if i < end { end - i } else { 0 }),
{
    if i < end && dim > 0 {
        ring_forward(
            inserted(nodes, i as usize, data[i], data[i + 1], last),
            data,
            i + dim,
            end,
            dim,
            Some(nodes.len() as usize),
        )
    } else {
        (nodes, last)
    }
}

/// The arena after the vertices that stand before position `i`, down to
/// `start`, were linked in behind `last`, against the buffer's order, and
/// the node of the last one.
pub open spec fn ring_backward(
    nodes: Seq<Node>,
    data: Seq<i32>,
    i: int,
    start: int,
    dim: int,
    last: Option<usize>,
) -> (Seq<Node>, Option<usize>)
    decreases (if i >= 0 { i } else { 0 }),
{
    if i > start && i >= dim && dim > 0 {
        ring_backward(
            inserted(nodes, (i - dim) as usize, data[i - dim], data[i - dim + 1], last),
            data,
            i - dim,
            start,
            dim,
            Some(nodes.len() as usize),
        )
    } else {
        (nodes, last)
    }
}

/// The arena after a ring was built from the vertices between the positions
/// `start` and `end` of the buffer, and a node of that ring, if it has one.
/// An outer ring (`clockwise`) and a hole get opposite windings, whatever
/// their winding in the buffer. Where the last vertex repeats the first, its
/// node is unlinked again.
pub open spec fn ring_built(
    nodes: Seq<Node>,
    data: Seq<i32>,
    start: int,
    end: int,
    dim: int,
    clockwise: bool,
) -> (Seq<Node>, Option<usize>) {
    if start >= end {
        (nodes, None)
    } else {
        let (linked, last) = if clockwise == (shoelace(data, start, end, dim) > 0) {
            ring_forward(nodes, data, start, end, dim, None)
        } else {
            ring_backward(nodes, data, end, start, dim, None)
        };
        match last {
            Some(l) => {
                let n = linked[l as int];
                if same_point(n, linked[n.next_i as int]) {
                    (unlinked(linked, n.links()), Some(n.next_i))
                } else {
                    (linked, last)
                }
            },
            None => (linked, None),
        }
    }
}

/// Whether every node behind the dummy lies on the point of the vertex that
/// it stands for.
pub open spec fn on_vertices(nodes: Seq<Node>, data: Seq<i32>) -> bool {
    forall|v: int|
        1 <= v < nodes.len() ==> (#[trigger] nodes[v]).x == data[nodes[v].i as int] && nodes[v].y
            == data[nodes[v].i + 1]
}

/// The number of vertices that stand between the positions `i` and `end` of
/// a buffer with `dim` coordinates per vertex.
pub open spec fn vertex_count(i: int, end: int, dim: int) -> nat
    decreases (if i < end { end - i } else { 0 }),
{
    if i < end && dim > 0 {
        1 + vertex_count(i + dim, end, dim)
    } else {
        0
    }
}

/// Where in the buffer the vertex stands that the node `k` behind the node
/// `base` stands for.
pub open spec fn vertex_at(nodes: Seq<Node>, base: int, k: int) -> int {
    nodes[base + k].i as int
}

/// The last node of a ring in the making, which has none while it is empty.
pub open spec fn ring_end(r: Seq<usize>) -> Option<usize> {
    if r.len() > 0 {
        Some(r.last())
    } else {
        None
    }
}

/// The nodes that are pushed to an arena of `len` nodes when `count` nodes
/// are inserted one after the other.
pub open spec fn new_nodes(len: nat, count: nat) -> Seq<usize> {
    Seq::new(count, |k: int| (len + k) as usize)
}

/// Vertices that are linked in behind the last node of a ring, in the
/// buffer's order, lengthen the ring by their nodes, in that order; linked
/// in behind no node, they form a ring of their own.
pub proof fn lemma_forward_ring(
    nodes: Seq<Node>,
    data: Seq<i32>,
    i: int,
    end: int,
    dim: int,
    r: Seq<usize>,
)
    requires
        links_ok(nodes),
        nodes.len() + vertex_count(i, end, dim) <= usize::MAX,
        i >= 0,
        end <= usize::MAX,
        r.len() > 0 ==> is_ring(nodes, r),
    ensures
        ({
            let last = ring_end(r);
            let (built, l) = ring_forward(nodes, data, i, end, dim, last);
            let count = vertex_count(i, end, dim);
            let ring = r + new_nodes(nodes.len(), count);
            &&& links_ok(built)
            &&& built.len() == nodes.len() + count
            &&& same_vertices(nodes, built)
            &&& (forall|k: int|
                0 <= k < count ==> #[trigger] vertex_at(built, nodes.len() as int, k) == i + k
                    * dim)
            &&& ring.len() > 0 ==> is_ring(built, ring) && l == Some(ring.last())
            &&& ring.len() == 0 ==> l is None
        }),
    decreases vertex_count(i, end, dim),
{
    let last = ring_end(r);
    let count = vertex_count(i, end, dim);
    if i < end && dim > 0 {
        let at = nodes.len() as usize;
        let grown = inserted(nodes, i as usize, data[i], data[i + 1], last);
        let longer = r.push(at);
        if r.len() > 0 {
            assert(ring_link(nodes, r, r.len() - 1));
            assert(1 <= r[0] < nodes.len());
            assert(1 <= r[r.len() - 1] < nodes.len());
        }
        assert(grown.len() == nodes.len() + 1);
        assert(links_ok(grown));
        if r.len() > 0 {
            lemma_insert_keeps_ring(nodes, r, r.len() - 1, i as usize, data[i], data[i + 1]);
            assert(r.insert(r.len() as int, at) =~= longer);
        } else {
            lemma_first_node_is_a_ring(nodes, i as usize, data[i], data[i + 1]);
            assert(longer =~= seq![at]);
        }
        assert(count == 1 + vertex_count(i + dim, end, dim));
        lemma_forward_ring(grown, data, i + dim, end, dim, longer);
        assert(longer + new_nodes(grown.len(), (count - 1) as nat) =~= r + new_nodes(
            nodes.len(),
            count,
        ));
        assert(ring_end(longer) == Some(at));
        let (built, l) = ring_forward(grown, data, i + dim, end, dim, ring_end(longer));
        assert(grown[nodes.len() as int].i == i);
        assert forall|v: int| 0 <= v < nodes.len() implies (#[trigger] built[v]).i == nodes[v].i by {
            assert(grown[v].i == nodes[v].i);
        }
        assert forall|k: int| 0 <= k < count implies #[trigger] vertex_at(
            built,
            nodes.len() as int,
            k,
        ) == i + k * dim by {
            let base = nodes.len() as int;
            if k == 0 {
                assert(built[base].i == grown[base].i);
                assert(vertex_at(built, base, 0) == built[base + 0].i);
                assert(k * dim == 0) by (nonlinear_arith)
                    requires
                        k == 0,
                ;
                assert(vertex_at(built, base, k) == i + k * dim);
            } else {
                let rest = vertex_count(i + dim, end, dim);
                let m = k - 1;
                assert(0 <= m < rest);
                assert(vertex_at(built, grown.len() as int, m) == (i + dim) + m * dim);
                assert(grown.len() + m == base + k);
                assert(vertex_at(built, grown.len() as int, m) == built[grown.len() + m].i);
                assert(vertex_at(built, base, k) == built[base + k].i);
                assert(i + dim + m * dim == i + k * dim) by (nonlinear_arith)
                    requires
                        m == k - 1,
                ;
                assert(vertex_at(built, base, k) == i + k * dim);
            }
        }
    } else {
        assert(r + new_nodes(nodes.len(), count) =~= r);
    }
}

/// Vertices that are linked in behind the last node of a ring, against the
/// buffer's order, lengthen the ring by their nodes, in the order in which
/// they were linked in; linked in behind no node, they form a ring of
/// their own.
pub proof fn lemma_backward_ring(
    nodes: Seq<Node>,
    data: Seq<i32>,
    i: int,
    start: int,
    dim: int,
    r: Seq<usize>,
)
    requires
        links_ok(nodes),
        nodes.len() + vertex_count(start, i, dim) <= usize::MAX,
        start >= 0,
        start <= i <= usize::MAX,
        (i - start) % dim == 0,
        dim > 0,
        r.len() > 0 ==> is_ring(nodes, r),
    ensures
        ({
            let last = ring_end(r);
            let (built, l) = ring_backward(nodes, data, i, start, dim, last);
            let count = vertex_count(start, i, dim);
            let ring = r + new_nodes(nodes.len(), count);
            &&& links_ok(built)
            &&& built.len() == nodes.len() + count
            &&& same_vertices(nodes, built)
            &&& (forall|k: int|
                0 <= k < count ==> #[trigger] vertex_at(built, nodes.len() as int, k) == i - (k
                    + 1) * dim)
            &&& ring.len() > 0 ==> is_ring(built, ring) && l == Some(ring.last())
            &&& ring.len() == 0 ==> l is None
        }),
    decreases i,
{
    let last = ring_end(r);
    let count = vertex_count(start, i, dim);
    if i > start {
        crate::geometry::lemma_step_aligned(0, i - start, dim);
        lemma_count_from_the_end(start, i, dim);
        crate::geometry::lemma_aligned(i - start, 1, dim);
        let at = nodes.len() as usize;
        let grown = inserted(nodes, (i - dim) as usize, data[i - dim], data[i - dim + 1], last);
        let longer = r.push(at);
        if r.len() > 0 {
            assert(ring_link(nodes, r, r.len() - 1));
            assert(1 <= r[0] < nodes.len());
            assert(1 <= r[r.len() - 1] < nodes.len());
        }
        assert(grown.len() == nodes.len() + 1);
        assert(links_ok(grown));
        if r.len() > 0 {
            lemma_insert_keeps_ring(
                nodes,
                r,
                r.len() - 1,
                (i - dim) as usize,
                data[i - dim],
                data[i - dim + 1],
            );
            assert(r.insert(r.len() as int, at) =~= longer);
        } else {
            lemma_first_node_is_a_ring(nodes, (i - dim) as usize, data[i - dim], data[i - dim + 1]);
            assert(longer =~= seq![at]);
        }
        assert(count == 1 + vertex_count(start, i - dim, dim));
        lemma_backward_ring(grown, data, i - dim, start, dim, longer);
        assert(longer + new_nodes(grown.len(), (count - 1) as nat) =~= r + new_nodes(
            nodes.len(),
            count,
        ));
        assert(ring_end(longer) == Some(at));
        let (built, l) = ring_backward(grown, data, i - dim, start, dim, ring_end(longer));
        assert(grown[nodes.len() as int].i == i - dim);
        assert forall|v: int| 0 <= v < nodes.len() implies (#[trigger] built[v]).i == nodes[v].i by {
            assert(grown[v].i == nodes[v].i);
        }
        assert forall|k: int| 0 <= k < count implies #[trigger] vertex_at(
            built,
            nodes.len() as int,
            k,
        ) == i - (k + 1) * dim by {
            let base = nodes.len() as int;
            if k == 0 {
                assert(built[base].i == grown[base].i);
                assert(vertex_at(built, base, 0) == built[base + 0].i);
                assert((k + 1) * dim == dim) by (nonlinear_arith)
                    requires
                        k == 0,
                ;
                assert(vertex_at(built, base, k) == i - (k + 1) * dim);
            } else {
                let rest = vertex_count(start, i - dim, dim);
                let m = k - 1;
                assert(0 <= m < rest);
                assert(vertex_at(built, grown.len() as int, m) == (i - dim) - (m + 1) * dim);
                assert(grown.len() + m == base + k);
                assert(vertex_at(built, grown.len() as int, m) == built[grown.len() + m].i);
                assert(vertex_at(built, base, k) == built[base + k].i);
                assert((i - dim) - (m + 1) * dim == i - (k + 1) * dim) by (nonlinear_arith)
                    requires
                        m == k - 1,
                ;
                assert(vertex_at(built, base, k) == i - (k + 1) * dim);
            }
        }
    } else {
        assert(r + new_nodes(nodes.len(), count) =~= r);
    }
}

/// The ring that `ring_built` builds is circular: its nodes are the nodes
/// that were pushed, in the order in which they were pushed, but for the
/// last of two or more where it lies on the first.
#[verifier::rlimit(50)]
pub proof fn lemma_built_ring_is_circular(
    nodes: Seq<Node>,
    data: Seq<i32>,
    start: int,
    end: int,
    dim: int,
    clockwise: bool,
)
    requires
        links_ok(nodes),
        0 <= start < end <= usize::MAX,
        dim > 0,
        (end - start) % dim == 0,
        nodes.len() + vertex_count(start, end, dim) <= usize::MAX,
    ensures
        ({
            let (built, last) = ring_built(nodes, data, start, end, dim, clockwise);
            let pushed = new_nodes(nodes.len(), vertex_count(start, end, dim));
            &&& links_ok(built)
            &&& built.len() == nodes.len() + pushed.len()
            &&& same_vertices(nodes, built)
            &&& (forall|j: int, k: int|
                0 <= j < k < pushed.len() ==> #[trigger] vertex_at(built, nodes.len() as int, j)
                    != #[trigger] vertex_at(built, nodes.len() as int, k))
            &&& (forall|k: int|
                0 <= k < pushed.len() ==> (#[trigger] vertex_at(built, nodes.len() as int, k))
                    % dim == start % dim)
            &&& pushed.len() >= 1
            &&& last matches Some(l) && (is_ring(built, pushed) && (l == pushed.last() || l
                == pushed[0]) || pushed.len() >= 2 && is_ring(built, pushed.drop_last()) && l
                == pushed[0])
        }),
{
    let count = vertex_count(start, end, dim);
    let pushed = new_nodes(nodes.len(), count);
    let forward = clockwise == (shoelace(data, start, end, dim) > 0);
    let (linked, l) = if forward {
        ring_forward(nodes, data, start, end, dim, None)
    } else {
        ring_backward(nodes, data, end, start, dim, None)
    };
    if forward {
        lemma_forward_ring(nodes, data, start, end, dim, Seq::<usize>::empty());
    } else {
        lemma_backward_ring(nodes, data, end, start, dim, Seq::<usize>::empty());
    }
    assert(Seq::<usize>::empty() + pushed =~= pushed);
    assert(count >= 1);
    let base = nodes.len() as int;
    assert(ring_end(Seq::<usize>::empty()) == None::<usize>);
    let up = ring_forward(nodes, data, start, end, dim, ring_end(Seq::<usize>::empty())).0;
    let down = ring_backward(nodes, data, end, start, dim, ring_end(Seq::<usize>::empty())).0;
    assert(forward ==> linked == up);
    assert(!forward ==> linked == down);
    assert forall|j: int, k: int| 0 <= j < k < count implies #[trigger] vertex_at(linked, base, j)
        != #[trigger] vertex_at(linked, base, k) by {
        assert(j * dim < k * dim) by (nonlinear_arith)
            requires
                j < k,
                dim > 0,
        ;
        assert((j + 1) * dim < (k + 1) * dim) by (nonlinear_arith)
            requires
                j < k,
                dim > 0,
        ;
        if forward {
            assert(vertex_at(up, base, j) == start + j * dim);
            assert(vertex_at(up, base, k) == start + k * dim);
        } else {
            assert(vertex_at(down, base, j) == end - (j + 1) * dim);
            assert(vertex_at(down, base, k) == end - (k + 1) * dim);
        }
    }
    assert forall|k: int| 0 <= k < count implies (#[trigger] vertex_at(linked, base, k)) % dim
        == start % dim by {
        if forward {
            assert(vertex_at(up, base, k) == start + k * dim);
        } else {
            assert(vertex_at(down, base, k) == end - (k + 1) * dim);
        }
        if forward {
            vstd::arithmetic::div_mod::lemma_mod_multiples_vanish(k, start, dim);
            assert(dim * k + start == start + k * dim) by (nonlinear_arith);
        } else {
            vstd::arithmetic::div_mod::lemma_mod_multiples_vanish(-(k + 1), end, dim);
            assert(dim * (-(k + 1)) + end == end - (k + 1) * dim) by (nonlinear_arith);
            vstd::arithmetic::div_mod::lemma_mod_multiples_vanish(
                (end - start) / dim,
                start,
                dim,
            );
            vstd::arithmetic::div_mod::lemma_fundamental_div_mod(end - start, dim);
        }
    }
    let n = linked[pushed.last() as int];
    assert(ring_link(linked, pushed, count - 1));
    assert(1 <= pushed[0] < linked.len());
    if same_point(n, linked[n.next_i as int]) {
        assert(crate::arena::node_ok(n, linked.len()));
        lemma_unlinked_ok(linked, n.links());
        if count >= 2 {
            crate::arena::lemma_remove_keeps_ring(linked, pushed, count - 1);
            assert(pushed.remove(count - 1) =~= pushed.drop_last());
        } else {
            let left = unlinked(linked, n.links());
            assert(crate::arena::node_ok(n, linked.len()));
            assert(n.next_i == pushed[0] && n.prev_i == pushed[0]);
            assert(left.len() == linked.len());
            assert(left[pushed[0] as int].next_i == pushed[0]);
            assert(left[pushed[0] as int].prev_i == pushed[0]);
            assert(ring_link(left, pushed, 0));
        }
    }
    let built = ring_built(nodes, data, start, end, dim, clockwise).0;
    assert(same_vertices(linked, built));
    assert forall|k: int| 0 <= k < count implies #[trigger] vertex_at(built, base, k) == vertex_at(
        linked,
        base,
        k,
    ) by {
        assert(built[base + k].i == linked[base + k].i);
    }
    assert forall|v: int| 0 <= v < nodes.len() implies (#[trigger] built[v]).i == nodes[v].i by {
        assert(linked[v].i == nodes[v].i);
    }
}

/// A range of whole vertices from the start of the buffer has as many
/// vertices as its length holds the number of coordinates per vertex.
pub proof fn lemma_vertex_count(end: int, dim: int)
    requires
        dim > 0,
        0 <= end,
        end % dim == 0,
    ensures
        vertex_count(0, end, dim) == end / dim,
    decreases end,
{
    if end > 0 {
        lemma_count_from_the_end(0, end, dim);
        crate::geometry::lemma_aligned(end, 1, dim);
        lemma_vertex_count(end - dim, dim);
        vstd::arithmetic::div_mod::lemma_div_plus_one(end - dim, dim);
        assert(dim + (end - dim) == end);
    } else {
        assert(vertex_count(0, 0, dim) == 0);
        vstd::arithmetic::div_mod::lemma_div_basics(dim);
    }
}

/// A range of whole vertices has one vertex more than the range without
/// its last vertex.
pub proof fn lemma_count_from_the_end(start: int, end: int, dim: int)
    requires
        dim > 0,
        start < end,
        (end - start) % dim == 0,
    ensures
        start + dim <= end,
        vertex_count(start, end, dim) == 1 + vertex_count(start, end - dim, dim),
    decreases end - start,
{
    crate::geometry::lemma_step_aligned(0, end - start, dim);
    assert(vertex_count(start, end, dim) == 1 + vertex_count(start + dim, end, dim));
    if start + dim < end {
        crate::geometry::lemma_aligned(end - start, 1, dim);
        lemma_count_from_the_end(start + dim, end, dim);
        assert(vertex_count(start, end - dim, dim) == 1 + vertex_count(
            start + dim,
            end - dim,
            dim,
        ));
    } else {
        assert(vertex_count(end, end, dim) == 0);
        assert(vertex_count(start, start, dim) == 0);
    }
}

/// Whether the node at position `k` of the ring is the first of its nodes
/// than which none lies further left, or as far left and lower.
pub open spec fn first_lower_left(nodes: Seq<Node>, r: Seq<usize>, k: int, upto: int) -> bool {
    &&& 0 <= k < upto
    &&& forall|j: int| 0 <= j < upto ==> !lower_left(nodes[#[trigger] r[j] as int], nodes[r[k] as int])
    &&& forall|j: int| 0 <= j < k ==> lower_left(nodes[r[k] as int], nodes[#[trigger] r[j] as int])
}

/// On a ring, the walk for the leftmost node looks at every node from
/// position `j` on.
pub proof fn lemma_leftmost_walk(nodes: Seq<Node>, r: Seq<usize>, j: int, k: int, fuel: nat)
    requires
        is_ring(nodes, r),
        0 <= j < r.len(),
        j == 0 ==> k == 0,
        j > 0 ==> first_lower_left(nodes, r, k, j),
        fuel >= r.len() - j,
    ensures
        exists|best: int|
            first_lower_left(nodes, r, best, r.len() as int) && leftmost_from(
                nodes,
                r[j],
                r[k],
                r[0],
                fuel,
            ) == r[best],
    decreases r.len() - j,
{
    let n = r.len() as int;
    assert(ring_link(nodes, r, j));
    let better = if lower_left(nodes[r[j] as int], nodes[r[k] as int]) {
        j
    } else {
        k
    };
    assert(first_lower_left(nodes, r, better, j + 1)) by {
        assert forall|i: int| 0 <= i < j + 1 implies !lower_left(
            nodes[#[trigger] r[i] as int],
            nodes[r[better] as int],
        ) by {
            if i < j && j > 0 {
                assert(!lower_left(nodes[r[i] as int], nodes[r[k] as int]));
            }
        }
        assert forall|i: int| 0 <= i < better implies lower_left(
            nodes[r[better] as int],
            nodes[#[trigger] r[i] as int],
        ) by {
            if better == j {
                if i != k {
                    assert(!lower_left(nodes[r[i] as int], nodes[r[k] as int]));
                    if i < k {
                        assert(lower_left(nodes[r[k] as int], nodes[r[i] as int]));
                    }
                }
            }
        }
    }
    if j + 1 < n {
        assert(r[0] != r[j + 1]);
        lemma_leftmost_walk(nodes, r, j + 1, better, (fuel - 1) as nat);
    } else {
        assert(first_lower_left(nodes, r, better, n));
    }
}

/// The leftmost node of a ring is a node of the ring than which none lies
/// further left, or as far left and lower; where the ring has several such
/// nodes, it is the first of them behind the node that the search starts
/// at.
pub proof fn lemma_leftmost_of_a_ring(nodes: Seq<Node>, r: Seq<usize>)
    requires
        is_ring(nodes, r),
    ensures
        exists|best: int|
            first_lower_left(nodes, r, best, r.len() as int) && leftmost(nodes, r[0]) == r[best],
{
    lemma_ring_fits(nodes, r);
    lemma_leftmost_walk(nodes, r, 0, 0, nodes.len());
}

/// Whether `t` is a ring of the arena that starts at `stop` and is made of
/// nodes of `r`.
pub open spec fn ring_left(nodes: Seq<Node>, t: Seq<usize>, stop: usize, r: Seq<usize>) -> bool {
    &&& is_ring(nodes, t)
    &&& t[0] == stop
    &&& t.len() <= r.len()
    &&& forall|k: int| 0 <= k < t.len() ==> r.contains(#[trigger] t[k])
}

/// The ring after nodes were taken out of it one after the other: each
/// step names the position of the node that is taken out and the position
/// from which what is left is named on. No step changes the order in which
/// the nodes that are left stand round the ring.
pub open spec fn thinned(r: Seq<usize>, steps: Seq<(int, int)>) -> Seq<usize>
    decreases steps.len(),
{
    if steps.len() == 0 {
        r
    } else {
        thinned(turned(r.remove(steps[0].0), steps[0].1), steps.drop_first())
    }
}

/// Whether each step names a position of the ring that it finds.
pub open spec fn steps_fit(r: Seq<usize>, steps: Seq<(int, int)>) -> bool
    decreases steps.len(),
{
    steps.len() > 0 ==> {
        &&& 0 <= steps[0].0 < r.len()
        &&& 0 <= steps[0].1 < r.len()
        &&& steps_fit(turned(r.remove(steps[0].0), steps[0].1), steps.drop_first())
    }
}

/// Whether `t` is the ring `r` with nodes taken out, in the order in which
/// its nodes stand round `r`.
pub open spec fn in_order_of(r: Seq<usize>, t: Seq<usize>) -> bool {
    exists|steps: Seq<(int, int)>| steps_fit(r, steps) && t == #[trigger] thinned(r, steps)
}

/// A ring stands in its own order.
pub proof fn lemma_order_of_itself(r: Seq<usize>)
    ensures
        in_order_of(r, r),
{
    let none = Seq::<(int, int)>::empty();
    assert(steps_fit(r, none) && r == thinned(r, none));
}

/// What stands in the order of a ring from which a node was taken out
/// stands in the order of the ring.
pub proof fn lemma_order_after_drop(r: Seq<usize>, c: int, at: int, t: Seq<usize>)
    requires
        0 <= c < r.len(),
        0 <= at < r.len(),
        in_order_of(turned(r.remove(c), at), t),
    ensures
        in_order_of(r, t),
{
    let part = turned(r.remove(c), at);
    let rest = choose|steps: Seq<(int, int)>|
        steps_fit(part, steps) && t == #[trigger] thinned(part, steps);
    let steps = seq![(c, at)] + rest;
    assert(steps[0] == (c, at));
    assert(steps.drop_first() =~= rest);
    assert(steps_fit(r, steps));
    assert(t == thinned(r, steps));
}

/// Whether every node of `r` that is marked as a single-point hole in the
/// arena is a node of `t`.
pub open spec fn marked_kept(nodes: Seq<Node>, r: Seq<usize>, t: Seq<usize>) -> bool {
    forall|k: int| 0 <= k < r.len() && nodes[#[trigger] r[k] as int].steiner ==> t.contains(r[k])
}

/// Where a node that is not marked is dropped from a ring, the marked nodes
/// that are kept of what is left are the marked nodes that are kept of the
/// ring.
pub proof fn lemma_marked_after_drop(nodes: Seq<Node>, r: Seq<usize>, c: int, at: int, t: Seq<usize>)
    requires
        links_ok(nodes),
        is_ring(nodes, r),
        r.len() >= 2,
        0 <= c < r.len(),
        0 <= at < r.len() - 1,
        !nodes[r[c] as int].steiner,
        marked_kept(unlinked(nodes, nodes[r[c] as int].links()), turned(r.remove(c), at), t),
    ensures
        marked_kept(nodes, r, t),
{
    let node = nodes[r[c] as int];
    let unl = unlinked(nodes, node.links());
    let shorter = r.remove(c);
    let round = turned(shorter, at);
    assert(1 <= r[c] < nodes.len());
    assert(crate::arena::node_ok(node, nodes.len()));
    crate::arena::lemma_unlinked_links(nodes, node.links());
    crate::arena::lemma_turned_same_nodes(shorter, at);
    assert forall|k: int| 0 <= k < r.len() && nodes[#[trigger] r[k] as int].steiner implies t.contains(
        r[k],
    ) by {
        assert(k != c);
        let sk = if k < c {
            k
        } else {
            k - 1
        };
        assert(shorter[sk] == r[k]);
        assert(shorter.contains(r[k]));
        assert(round.contains(r[k]));
        let j = choose|j: int| 0 <= j < round.len() && round[j] == r[k];
        assert(1 <= r[k] < nodes.len());
        assert(unl[r[k] as int].steiner == nodes[r[k] as int].steiner);
        assert(unl[round[j] as int].steiner);
    }
}

/// Whether `t` is such a ring in which no node is superfluous, unless it is
/// a single node.
pub open spec fn clean_ring(nodes: Seq<Node>, t: Seq<usize>, stop: usize, r: Seq<usize>) -> bool {
    &&& ring_left(nodes, t, stop, r)
    &&& (t.len() == 1 || forall|k: int| 0 <= k < t.len() ==> !superfluous(nodes, #[trigger] t[k]))
}

/// On a ring that is named from the node on at which the filter stops, a
/// filter that stands at position `c` leaves a ring of some of its nodes
/// behind, in the order in which they stood, and the ring links of all
/// other nodes alone. No node that is marked as a single-point hole is
/// dropped. Where the nodes before
/// position `c` are in order, or a node is dropped, no node of the ring
/// that is left is superfluous.
#[verifier::rlimit(50)]
pub proof fn lemma_filter_walk(
    nodes: Seq<Node>,
    r: Seq<usize>,
    c: int,
    cuts: nat,
    steps: nat,
    checked: bool,
)
    requires
        links_ok(nodes),
        is_ring(nodes, r),
        0 <= c < r.len(),
        checked ==> forall|k: int| 0 <= k < c ==> !superfluous(nodes, #[trigger] r[k]),
        cuts >= r.len(),
        steps >= r.len() - c,
    ensures
        ({
            let (left, stop) = filtered_from(nodes, r[c], r[0], cuts, steps);
            &&& links_ok(left)
            &&& left.len() == nodes.len()
            &&& same_vertices(nodes, left)
            &&& outside_kept(nodes, left, r)
            &&& exists|t: Seq<usize>|
                ring_left(left, t, stop, r) && (checked ==> clean_ring(left, t, stop, r))
                    && marked_kept(nodes, r, t) && in_order_of(r, t)
        }),
    decreases cuts, steps,
{
    let n = r.len() as int;
    let p = r[c];
    let node = nodes[p as int];
    assert(ring_link(nodes, r, c));
    assert(1 <= p < nodes.len());
    let (left, stop) = filtered_from(nodes, p, r[0], cuts, steps);
    if superfluous(nodes, p) {
        let unl = unlinked(nodes, node.links());
        lemma_unlinked_ok(nodes, node.links());
        lemma_unlinked_outside(nodes, r, c);
        if node.prev_i == node.next_i {
            if n >= 2 {
                assert(n == 2) by {
                    if n > 2 {
                        let a = after(c, n);
                        let b = before(c, n);
                        if a < b {
                            assert(r[a] != r[b]);
                        } else {
                            assert(r[b] != r[a]);
                        }
                    }
                }
                lemma_remove_keeps_ring(nodes, r, c);
                let t = r.remove(c);
                assert(t[0] == node.prev_i);
                assert(r.contains(t[0])) by {
                    assert(t[0] == r[1 - c]);
                }
                assert(clean_ring(unl, t, stop, r));
                assert forall|k: int| 0 <= k < r.len() && nodes[#[trigger] r[k] as int].steiner
                    implies t.contains(r[k]) by {
                    assert(k == 1 - c);
                    assert(t[0] == r[k]);
                }
                assert(marked_kept(nodes, r, t));
                assert(turned(t, 0) =~= t);
                lemma_order_of_itself(t);
                lemma_order_after_drop(r, c, 0, t);
            } else {
                let t = r;
                assert(node.prev_i == p && node.next_i == p);
                assert(unl.len() == nodes.len());
                assert(unl[p as int].next_i == p);
                assert(unl[p as int].prev_i == p);
                assert(ring_link(unl, t, 0));
                assert(r.contains(t[0]));
                assert(clean_ring(unl, t, stop, r));
                assert(marked_kept(nodes, r, t));
                lemma_order_of_itself(r);
            }
        } else {
            assert(n >= 3) by {
                if n == 2 {
                    assert(after(c, n) == before(c, n));
                }
            }
            lemma_remove_keeps_ring(nodes, r, c);
            let shorter = r.remove(c);
            let at = if c > 0 {
                c - 1
            } else {
                n - 2
            };
            assert(shorter[at] == node.prev_i);
            lemma_ring_turned(unl, shorter, at);
            let turned_ring = turned(shorter, at);
            lemma_ring_fits(nodes, r);
            lemma_filter_walk(unl, turned_ring, 0, (cuts - 1) as nat, nodes.len(), true);
            let t = choose|t: Seq<usize>|
                clean_ring(left, t, stop, turned_ring) && marked_kept(unl, turned_ring, t)
                    && in_order_of(turned_ring, t);
            lemma_marked_after_drop(nodes, r, c, at, t);
            lemma_order_after_drop(r, c, at, t);
            assert forall|k: int| 0 <= k < turned_ring.len() implies r.contains(
                #[trigger] turned_ring[k],
            ) by {
                let sj = if k + at < n - 1 {
                    k + at
                } else {
                    k + at - (n - 1)
                };
                assert(turned_ring[k] == shorter[sj]);
                let rj = if sj < c {
                    sj
                } else {
                    sj + 1
                };
                assert(shorter[sj] == r[rj]);
            }
            assert forall|k: int| 0 <= k < t.len() implies r.contains(#[trigger] t[k]) by {
                assert(turned_ring.contains(t[k]));
                let j = choose|j: int| 0 <= j < turned_ring.len() && turned_ring[j] == t[k];
                assert(r.contains(turned_ring[j]));
            }
            lemma_outside_chain(nodes, unl, left, r, turned_ring);
            assert(clean_ring(left, t, stop, r));
            assert(marked_kept(nodes, r, t) && in_order_of(r, t));
        }
    } else if node.next_i == r[0] || steps == 0 {
        assert(c + 1 == n) by {
            if c + 1 < n {
                assert(r[0] != r[c + 1]);
            }
        }
        let t = r;
        assert forall|k: int| 0 <= k < t.len() implies r.contains(#[trigger] t[k]) by {}
        assert(ring_left(nodes, t, stop, r));
        if checked {
            assert(clean_ring(nodes, t, stop, r));
        }
        assert(marked_kept(nodes, r, t));
        lemma_order_of_itself(r);
    } else {
        assert(c + 1 < n);
        lemma_filter_walk(nodes, r, c + 1, cuts, (steps - 1) as nat, checked);
    }
}

/// Filtering a ring all the way round leaves a ring of some of its nodes in
/// which no node is superfluous, or a single node; the nodes stand in it in
/// the order in which they stood. Every node that is marked as a
/// single-point hole is left.
pub proof fn lemma_filtered_ring_is_clean(nodes: Seq<Node>, r: Seq<usize>)
    requires
        links_ok(nodes),
        is_ring(nodes, r),
    ensures
        ({
            let (left, stop) = filtered(nodes, r[0], None);
            exists|t: Seq<usize>|
                clean_ring(left, t, stop, r) && marked_kept(nodes, r, t) && in_order_of(r, t)
        }),
{
    lemma_ring_fits(nodes, r);
    lemma_filter_walk(nodes, r, 0, nodes.len(), nodes.len(), true);
    let (left, stop) = filtered_from(nodes, r[0], r[0], nodes.len(), nodes.len());
    let t = choose|t: Seq<usize>|
        ring_left(left, t, stop, r) && (true ==> clean_ring(left, t, stop, r)) && marked_kept(
            nodes,
            r,
            t,
        ) && in_order_of(r, t);
    assert(filtered(nodes, r[0], None) == (left, stop));
    assert(clean_ring(left, t, stop, r) && marked_kept(nodes, r, t) && in_order_of(r, t));
}

/// On a ring in which no node is superfluous the filter drops nothing: from
/// any position it walks on to where it stops and leaves the arena alone.
pub proof fn lemma_clean_walk(nodes: Seq<Node>, r: Seq<usize>, c: int, cuts: nat, steps: nat)
    requires
        is_ring(nodes, r),
        0 <= c < r.len(),
        forall|k: int| 0 <= k < r.len() ==> !superfluous(nodes, #[trigger] r[k]),
    ensures
        filtered_from(nodes, r[c], r[0], cuts, steps) == (nodes, r[0]),
    decreases r.len() - c,
{
    assert(ring_link(nodes, r, c));
    assert(!superfluous(nodes, r[c]));
    if c + 1 < r.len() && steps > 0 {
        assert(r[0] != r[c + 1]);
        lemma_clean_walk(nodes, r, c + 1, cuts, (steps - 1) as nat);
    }
}

/// A second filter drops nothing: where filtering a ring all the way round
/// left more than a single node, filtering what was left, from the node on
/// which the first filter ended, leaves the arena as it is and ends on the
/// same node.
pub proof fn lemma_second_filter_drops_nothing(nodes: Seq<Node>, r: Seq<usize>)
    requires
        links_ok(nodes),
        is_ring(nodes, r),
    ensures
        ({
            let (left, stop) = filtered(nodes, r[0], None);
            left[stop as int].next_i != stop ==> filtered(left, stop, None) == (left, stop)
        }),
{
    lemma_filtered_ring_is_clean(nodes, r);
    let (left, stop) = filtered(nodes, r[0], None);
    let t = choose|t: Seq<usize>| clean_ring(left, t, stop, r);
    if left[stop as int].next_i != stop {
        assert(ring_link(left, t, 0));
        assert(t.len() > 1);
        lemma_clean_walk(left, t, 0, left.len(), left.len());
    }
}

/// Whether the way from `a` to `b` starts inside the polygon.
pub fn locally_inside(nodes: &Vec<Node>, a: usize, b: usize) -> (inside: bool)
    requires
        links_ok(nodes@),
        1 <= a < nodes.len(),
        b < nodes.len(),
    ensures
        inside == leaves_inward(nodes@, a, b),
{
    let na: Node = nodes[a];
    let nb: Node = nodes[b];
    let ap: Node = nodes[na.prev_i];
    let an: Node = nodes[na.next_i];
    if area(&ap, &na, &an) < 0 {
        area(&na, &nb, &an) >= 0 && area(&na, &ap, &nb) >= 0
    } else {
        area(&na, &nb, &ap) < 0 || area(&na, &an, &nb) < 0
    }
}

/// Whether the sector of the polygon at `m` holds the sector at `p`.
pub fn sector_contains_sector(nodes: &Vec<Node>, m: usize, p: usize) -> (holds: bool)
    requires
        links_ok(nodes@),
        1 <= m < nodes.len(),
        1 <= p < nodes.len(),
    ensures
        holds == sector_holds(nodes@, m, p),
{
    let nm: Node = nodes[m];
    let np: Node = nodes[p];
    area(&nodes[nm.prev_i], &nm, &nodes[np.prev_i]) < 0 && area(
        &nodes[np.next_i],
        &nm,
        &nodes[nm.next_i],
    ) < 0
}

/// The leftmost node of the ring through `start`.
pub fn get_leftmost(nodes: &Vec<Node>, start: usize) -> (left: usize)
    requires
        links_ok(nodes@),
        1 <= start < nodes.len(),
    ensures
        left == leftmost(nodes@, start),
        1 <= left < nodes.len(),
{
    let mut p: usize = start;
    let mut best: usize = start;
    let mut fuel: usize = nodes.len();
    loop
        invariant
            links_ok(nodes@),
            1 <= start < nodes.len(),
            1 <= p < nodes.len(),
            1 <= best < nodes.len(),
            fuel >= 1,
            leftmost_from(nodes@, p, best, start, fuel as nat) == leftmost(nodes@, start),
        decreases fuel,
    {
        let n: Node = nodes[p];
        let b: Node = nodes[best];
        if n.x < b.x || (n.x == b.x && n.y < b.y) {
            best = p;
        }
        p = n.next_i;
        fuel = fuel - 1;
        if p == start || fuel == 0 {
            return best;
        }
    }
}

/// Whether an edge of the ring through `a` crosses the diagonal from `a` to
/// `b`.
pub fn intersects_polygon(nodes: &Vec<Node>, a: usize, b: usize) -> (crossed: bool)
    requires
        links_ok(nodes@),
        1 <= a < nodes.len(),
        b < nodes.len(),
    ensures
        crossed == diagonal_crossed(nodes@, a, b),
{
    let na: Node = nodes[a];
    let nb: Node = nodes[b];
    let mut p: usize = a;
    let mut fuel: usize = nodes.len();
    loop
        invariant
            links_ok(nodes@),
            1 <= a < nodes.len(),
            b < nodes.len(),
            1 <= p < nodes.len(),
            na == nodes@[a as int],
            nb == nodes@[b as int],
            fuel >= 1,
            crossed_from(nodes@, p, a, b, fuel as nat) == diagonal_crossed(nodes@, a, b),
        decreases fuel,
    {
        let n: Node = nodes[p];
        let next: Node = nodes[n.next_i];
        if n.i != na.i && n.i != nb.i && next.i != na.i && next.i != nb.i && intersects(
            &n,
            &next,
            &na,
            &nb,
        ) {
            return true;
        }
        p = n.next_i;
        fuel = fuel - 1;
        if p == a || fuel == 0 {
            return false;
        }
    }
}

/// Whether the midpoint of the diagonal from `a` to `b` lies inside the ring
/// through `a`.
pub fn middle_inside(nodes: &Vec<Node>, a: usize, b: usize) -> (inside: bool)
    requires
        links_ok(nodes@),
        1 <= a < nodes.len(),
        b < nodes.len(),
    ensures
        inside == midpoint_inside(nodes@, a, b),
{
    let px2: i64 = nodes[a].x as i64 + nodes[b].x as i64;
    let py2: i64 = nodes[a].y as i64 + nodes[b].y as i64;
    let mut p: usize = a;
    let mut inside: bool = false;
    let mut fuel: usize = nodes.len();
    loop
        invariant
            links_ok(nodes@),
            1 <= a < nodes.len(),
            1 <= p < nodes.len(),
            px2 == nodes@[a as int].x + nodes@[b as int].x,
            py2 == nodes@[a as int].y + nodes@[b as int].y,
            fuel >= 1,
            (inside != crossings_odd(nodes@, p, a, px2 as int, py2 as int, fuel as nat))
                == midpoint_inside(nodes@, a, b),
        decreases fuel,
    {
        let n: Node = nodes[p];
        let next: Node = nodes[n.next_i];
        let dy: i64 = next.y as i64 - n.y as i64;
        let l: i128 = mul_small(px2 - 2 * (n.x as i64), dy);
        let r: i128 = mul_small(next.x as i64 - n.x as i64, py2 - 2 * (n.y as i64));
        let hit: bool = (2 * (n.y as i64) > py2) != (2 * (next.y as i64) > py2) && dy != 0 && ((dy
            > 0 && l < r) || (dy < 0 && l > r));
        assert(hit == edge_right_of(nodes@, p, px2 as int, py2 as int));
        inside = inside != hit;
        p = n.next_i;
        fuel = fuel - 1;
        if p == a || fuel == 0 {
            return inside;
        }
    }
}

/// Whether the diagonal from `a` to `b` may split the ring.
pub fn is_valid_diagonal(nodes: &Vec<Node>, a: usize, b: usize) -> (valid: bool)
    requires
        links_ok(nodes@),
        1 <= a < nodes.len(),
        1 <= b < nodes.len(),
    ensures
        valid == diagonal_valid(nodes@, a, b),
{
    let na: Node = nodes[a];
    let nb: Node = nodes[b];
    let an: Node = nodes[na.next_i];
    let ap: Node = nodes[na.prev_i];
    let bn: Node = nodes[nb.next_i];
    let bp: Node = nodes[nb.prev_i];
    ((an.i != nb.i && ap.i != nb.i) && !intersects_polygon(nodes, a, b)) && ((locally_inside(
        nodes,
        a,
        b,
    ) && locally_inside(nodes, b, a) && middle_inside(nodes, a, b) && (area(&ap, &na, &bp) != 0
        || area(&na, &bp, &nb) != 0)) || (equals(&na, &nb) && area(&ap, &na, &an) > 0 && area(
        &bp,
        &nb,
        &bn,
    ) > 0))
}

/// Drops the nodes of the ring through `start` that lie on their successor
/// or on a line with their neighbours, from `start` until the walk comes to
/// `end` (or back to `start`) without a drop. Returns the node it ended on.
pub fn filter_points(nodes: &mut Vec<Node>, start: usize, end: Option<usize>) -> (stop: usize)
    requires
        links_ok(old(nodes)@),
        1 <= start < old(nodes).len(),
        end matches Some(e) ==> 1 <= e < old(nodes).len(),
    ensures
        (final(nodes)@, stop) == filtered(old(nodes)@, start, end),
        final(nodes).len() == old(nodes).len(),
        links_ok(final(nodes)@),
        vertices_kept(old(nodes)@, final(nodes)@),
        1 <= stop < final(nodes).len(),
{
    let mut stop: usize = match end {
        Some(e) => e,
        None => start,
    };
    let mut p: usize = start;
    let mut cuts: usize = nodes.len();
    let mut steps: usize = nodes.len();
    let ghost goal = filtered(nodes@, start, end);
    loop
        invariant
            links_ok(nodes@),
            nodes.len() == old(nodes).len(),
            1 <= p < nodes.len(),
            1 <= stop < nodes.len(),
            vertices_kept(old(nodes)@, nodes@),
            goal == filtered(old(nodes)@, start, end),
            filtered_from(nodes@, p, stop, cuts as nat, steps as nat) == goal,
        decreases cuts, steps,
    {
        let n: Node = nodes[p];
        let next: Node = nodes[n.next_i];
        if !n.steiner && (equals(&n, &next) || area(&nodes[n.prev_i], &n, &next) == 0) {
            if cuts == 0 {
                return stop;
            }
            cuts = cuts - 1;
            steps = nodes.len();
            let (before, after) = remove_node(nodes, n.link_info());
            p = before;
            stop = before;
            if p == after {
                return stop;
            }
        } else {
            p = n.next_i;
            if p == stop || steps == 0 {
                return stop;
            }
            steps = steps - 1;
        }
    }
}

/// Builds a ring from the vertices between the positions `start` and `end`
/// of `data`, in the winding asked for, and returns one of its nodes. Each
/// node that is pushed lies on the point of its vertex, and no other node
/// is moved.
pub fn linked_list(
    nodes: &mut Vec<Node>,
    data: &[i32],
    start: usize,
    end: usize,
    dim: usize,
    clockwise: bool,
) -> (last: Option<usize>)
    requires
        links_ok(old(nodes)@),
        dim >= 2,
        start <= end <= data.len(),
        (end - start) % (dim as int) == 0,
    ensures
        (final(nodes)@, last) == ring_built(
            old(nodes)@,
            data@,
            start as int,
            end as int,
            dim as int,
            clockwise,
        ),
        links_ok(final(nodes)@),
        old(nodes).len() <= final(nodes).len(),
        last matches Some(l) ==> 1 <= l < final(nodes).len(),
        last is Some <==> start < end,
        forall|limit: int|
            #[trigger] vertices_below(old(nodes)@, limit) && end <= limit ==> vertices_below(
                final(nodes)@,
                limit,
            ),
        on_vertices(old(nodes)@, data@) ==> on_vertices(final(nodes)@, data@),
{
    if start >= end {
        return None;
    }
    assert(start + dim <= end) by {
        if start + dim > end {
            assert((end - start) % (dim as int) == end - start) by (nonlinear_arith)
                requires
                    0 < end - start < dim,
            ;
        }
    }
    let mut last: Option<usize> = None;
    let ghost goal = ring_built(nodes@, data@, start as int, end as int, dim as int, clockwise);
    if clockwise == (signed_area(data, start, end, dim) > 0) {
        let mut i: usize = start;
        while i < end
            invariant
                links_ok(nodes@),
                dim >= 2,
                start <= i <= end <= data.len(),
                (end - i) % (dim as int) == 0,
                old(nodes).len() <= nodes.len(),
                last matches Some(l) ==> 1 <= l < nodes.len(),
                last is Some <==> start < i,
                forall|limit: int|
                    #[trigger] vertices_below(old(nodes)@, limit) && end <= limit
                        ==> vertices_below(nodes@, limit),
                ring_forward(nodes@, data@, i as int, end as int, dim as int, last)
                    == ring_forward(old(nodes)@, data@, start as int, end as int, dim as int, None),
                on_vertices(old(nodes)@, data@) ==> on_vertices(nodes@, data@),
            decreases end - i,
        {
            assert(i + dim <= end) by {
                if i + dim > end {
                    assert((end - i) % (dim as int) == end - i) by (nonlinear_arith)
                        requires
                            0 < end - i < dim,
                    ;
                }
            }
            assert((end - (i + dim)) % (dim as int) == 0) by (nonlinear_arith)
                requires
                    (end - i) % (dim as int) == 0,
                    dim > 0,
            ;
            let ghost before_insert = nodes@;
            let at: usize = insert_node(nodes, i, data[i], data[i + 1], last);
            proof {
                if let Some(l) = last {
                    assert(crate::arena::node_ok(before_insert[l as int], before_insert.len()));
                }
                assert(nodes@[at as int].i == i);
                assert(on_vertices(before_insert, data@) ==> on_vertices(nodes@, data@));
            }
            last = Some(at);
            i = i + dim;
        }
    } else {
        let mut i: usize = end;
        while i > start
            invariant
                links_ok(nodes@),
                dim >= 2,
                start <= i <= end <= data.len(),
                (i - start) % (dim as int) == 0,
                old(nodes).len() <= nodes.len(),
                last matches Some(l) ==> 1 <= l < nodes.len(),
                last is Some <==> i < end,
                forall|limit: int|
                    #[trigger] vertices_below(old(nodes)@, limit) && end <= limit
                        ==> vertices_below(nodes@, limit),
                ring_backward(nodes@, data@, i as int, start as int, dim as int, last)
                    == ring_backward(old(nodes)@, data@, end as int, start as int, dim as int, None),
                on_vertices(old(nodes)@, data@) ==> on_vertices(nodes@, data@),
            decreases i,
        {
            assert(start + dim <= i) by {
                if start + dim > i {
                    assert((i - start) % (dim as int) == i - start) by (nonlinear_arith)
                        requires
                            0 < i - start < dim,
                    ;
                }
            }
            assert((i - dim - start) % (dim as int) == 0) by (nonlinear_arith)
                requires
                    (i - start) % (dim as int) == 0,
                    dim > 0,
            ;
            i = i - dim;
            let ghost before_insert = nodes@;
            let at: usize = insert_node(nodes, i, data[i], data[i + 1], last);
            proof {
                if let Some(l) = last {
                    assert(crate::arena::node_ok(before_insert[l as int], before_insert.len()));
                }
                assert(nodes@[at as int].i == i);
                assert(on_vertices(before_insert, data@) ==> on_vertices(nodes@, data@));
            }
            last = Some(at);
        }
    }
    if let Some(l) = last {
        let n: Node = nodes[l];
        if equals(&n, &nodes[n.next_i]) {
            let ghost before_remove = nodes@;
            let (_, after) = remove_node(nodes, n.link_info());
            proof {
                crate::arena::lemma_unlinked_links(before_remove, n.links());
                lemma_unlinked_ok(before_remove, n.links());
                assert(on_vertices(before_remove, data@) ==> on_vertices(nodes@, data@)) by {
                    if on_vertices(before_remove, data@) {
                        assert forall|v: int| 1 <= v < nodes@.len() implies (#[trigger] nodes@[v]).x
                            == data@[nodes@[v].i as int] && nodes@[v].y == data@[nodes@[v].i + 1] by {
                            assert(nodes@[v].i == before_remove[v].i);
                            assert(before_remove[v].x == data@[before_remove[v].i as int]);
                        }
                    }
                }
            }
            last = Some(after);
        }
    }
    last
}

} // verus!
