//! Hole elimination: every hole ring is joined to the outer ring by a bridge,
//! from the leftmost hole to the rightmost, until a single ring is left.

use vstd::prelude::*;
use crate::arena::{bridged, links_ok, split_polygon, vertices_below, vertices_kept, Node};
use crate::geometry::{
    in_triangle, lemma_aligned, lemma_aligned_diff, lemma_product_bound, lemma_scaled_order,
    mul_small, mul_wide, point_in_triangle, same_point,
};
use crate::ring::{
    filter_points, filtered, get_leftmost, leaves_inward, leftmost, linked_list, locally_inside,
    ring_built, sector_contains_sector, sector_holds,
};

verus! {

/// A point where the ray that leaves a hole's leftmost point towards lesser
/// x meets an edge of the outer ring: its x coordinate is `num / den`, and
/// `node` is the end of that edge that lies on the hole's point, or, where
/// neither does, the end with the lesser x.
#[derive(Clone, Copy, Debug)]
pub struct RayHit {
    /// The end of the edge on the hole's point, else the end with the lesser
    /// x.
    pub node: usize,
    /// The numerator of the x coordinate.
    pub num: i128,
    /// The denominator of the x coordinate, which is positive.
    pub den: i64,
}

/// The bounds that the exact arithmetic on a hit relies on.
pub open spec fn hit_ok(h: RayHit, len: nat) -> bool {
    &&& 1 <= h.node < len
    &&& 0 < h.den <= 0xffff_ffff
    &&& -0x2_0000_0000_0000_0000 <= h.num <= 0x2_0000_0000_0000_0000
}

/// The hit of the ray from `hole` on the edge that leaves `p`, if the ray
/// meets that edge at or before the hole and behind the best hit so far.
pub open spec fn edge_hit(nodes: Seq<Node>, hole: usize, p: usize, best: Option<RayHit>) -> Option<
    RayHit,
> {
    let h = nodes[hole as int];
    let np = nodes[p as int];
    let nn = nodes[np.next_i as int];
    let den = np.y - nn.y;
    let num = np.x * den + (np.y - h.y) * (nn.x - np.x);
    if h.y <= np.y && h.y >= nn.y && nn.y != np.y && num <= h.x * den && (match best {
        Some(b) => num * b.den > b.num * den,
        None => true,
    }) {
        Some(RayHit { node: hit_end(nodes, hole, p), num: num as i128, den: den as i64 })
    } else {
        None
    }
}

/// The end of the edge that leaves `p` which a hit of the ray from `hole`
/// on that edge names: the end that lies on the hole's point, so that a ray
/// that touches a vertex of the ring is bridged to that vertex; where
/// neither end does, the end with the lesser x.
pub open spec fn hit_end(nodes: Seq<Node>, hole: usize, p: usize) -> usize {
    let h = nodes[hole as int];
    let np = nodes[p as int];
    let nn = nodes[np.next_i as int];
    if same_point(np, h) {
        p
    } else if same_point(nn, h) {
        np.next_i
    } else if np.x < nn.x {
        p
    } else {
        np.next_i
    }
}

/// A hit on an edge of which an end lies on the hole's point touches the
/// hole there and names that end.
pub proof fn lemma_hit_on_a_vertex(nodes: Seq<Node>, hole: usize, p: usize, best: Option<RayHit>)
    requires
        edge_hit(nodes, hole, p, best) is Some,
        same_point(nodes[p as int], nodes[hole as int]) || same_point(
            nodes[nodes[p as int].next_i as int],
            nodes[hole as int],
        ),
    ensures
        touches(nodes, hole, edge_hit(nodes, hole, p, best)->0),
        same_point(nodes[edge_hit(nodes, hole, p, best)->0.node as int], nodes[hole as int]),
{
    let h = nodes[hole as int];
    let np = nodes[p as int];
    let nn = nodes[np.next_i as int];
    let den = np.y - nn.y;
    let num = np.x * den + (np.y - h.y) * (nn.x - np.x);
    lemma_product_bound(h.x as int, den, 0x8000_0000, 0xffff_ffff);
    if same_point(np, h) {
        assert((np.y - h.y) * (nn.x - np.x) == 0) by (nonlinear_arith)
            requires
                np.y - h.y == 0,
        ;
        assert(num == h.x * den);
    } else {
        assert(np.y - h.y == den);
        assert(np.x * den + den * (nn.x - np.x) == nn.x * den) by (nonlinear_arith);
        assert(num == h.x * den);
    }
    assert(edge_hit(nodes, hole, p, best)->0.num == num);
    assert(edge_hit(nodes, hole, p, best)->0.den == den);
}

/// Whether the hit lies on the hole's leftmost point itself.
pub open spec fn touches(nodes: Seq<Node>, hole: usize, hit: RayHit) -> bool {
    hit.num == nodes[hole as int].x * hit.den
}

/// The hit nearest to the hole among the edges on the walk from `p` back to
/// `outer`, where `best` is the nearest hit before `p`. The walk ends at the
/// first hit that touches the hole.
pub open spec fn ray_scan(
    nodes: Seq<Node>,
    hole: usize,
    p: usize,
    outer: usize,
    best: Option<RayHit>,
    fuel: nat,
) -> Option<RayHit>
    decreases fuel,
{
    let found = edge_hit(nodes, hole, p, best);
    let nearest = match found {
        Some(f) => found,
        None => best,
    };
    let next = nodes[p as int].next_i;
    if (found matches Some(f) && touches(nodes, hole, f)) || fuel <= 1 || next == outer {
        nearest
    } else {
        ray_scan(nodes, hole, next, outer, nearest, (fuel - 1) as nat)
    }
}

/// Whether the node `p` lies in the triangle between the hole's leftmost
/// point, the hit and the hit's node `(mx, my)`, and not straight above or
/// below the hole.
pub open spec fn in_bridge_sector(nodes: Seq<Node>, hole: usize, hit: RayHit, mx: i32, my: i32, p: usize) -> bool {
    let h = nodes[hole as int];
    let np = nodes[p as int];
    let ax = if h.y < my {
        h.x * hit.den
    } else {
        hit.num as int
    };
    let cx = if h.y < my {
        hit.num as int
    } else {
        h.x * hit.den
    };
    &&& h.x >= np.x
    &&& np.x >= mx
    &&& h.x != np.x
    &&& in_triangle(ax, h.y as int, mx * hit.den, my as int, cx, h.y as int, np.x * hit.den, np.y as int)
}

/// Whether `p` makes a better bridge than `m`, whose slope against the ray is
/// `tn / td`: the way from `p` to the hole starts inside the polygon, and `p`
/// has the lesser slope, or the same slope and the greater x, or the same
/// point and the inner sector.
pub open spec fn better_bridge(nodes: Seq<Node>, hole: usize, m: usize, tn: int, td: int, p: usize) -> bool {
    let h = nodes[hole as int];
    let np = nodes[p as int];
    let a = if h.y >= np.y {
        h.y - np.y
    } else {
        np.y - h.y
    };
    let b = h.x - np.x;
    &&& leaves_inward(nodes, p, hole)
    &&& (a * td < tn * b || (a * td == tn * b && (np.x > nodes[m as int].x || (np.x
        == nodes[m as int].x && sector_holds(nodes, m, p)))))
}

/// The bridge node for `hole` after the walk from `p` back to `stop`, where
/// `m` is the best node before `p` and `tn / td` its slope.
pub open spec fn bridge_scan(
    nodes: Seq<Node>,
    hole: usize,
    hit: RayHit,
    mx: i32,
    my: i32,
    p: usize,
    stop: usize,
    m: usize,
    tn: int,
    td: int,
    fuel: nat,
) -> usize
    decreases fuel,
{
    let h = nodes[hole as int];
    let np = nodes[p as int];
    let takes = in_bridge_sector(nodes, hole, hit, mx, my, p) && better_bridge(
        nodes,
        hole,
        m,
        tn,
        td,
        p,
    );
    let m2 = if takes {
        p
    } else {
        m
    };
    let tn2 = if takes {
        if h.y >= np.y {
            h.y - np.y
        } else {
            np.y - h.y
        }
    } else {
        tn
    };
    let td2 = if takes {
        h.x - np.x
    } else {
        td
    };
    let next = np.next_i;
    if fuel <= 1 || next == stop {
        m2
    } else {
        bridge_scan(nodes, hole, hit, mx, my, next, stop, m2, tn2, td2, (fuel - 1) as nat)
    }
}

/// The node of the ring through `outer` that the hole whose leftmost node
/// is `hole` is bridged to, if the ray from the hole towards lesser x meets
/// that ring at all.
pub open spec fn hole_bridge(nodes: Seq<Node>, hole: usize, outer: usize) -> Option<usize> {
    match ray_scan(nodes, hole, outer, outer, None, nodes.len()) {
        None => None,
        Some(hit) => if touches(nodes, hole, hit) {
            Some(hit.node)
        } else {
            let m = nodes[hit.node as int];
            Some(
                bridge_scan(
                    nodes,
                    hole,
                    hit,
                    m.x,
                    m.y,
                    hit.node,
                    hit.node,
                    hit.node,
                    1,
                    0,
                    nodes.len(),
                ),
            )
        },
    }
}

/// Where the walk round the ring ends on a hit that touches the hole, the
/// hole is bridged to the node that the hit names: to the ring's vertex on
/// the hole's point, where the edge that was hit has an end there.
pub proof fn lemma_touched_vertex_is_the_bridge(nodes: Seq<Node>, hole: usize, outer: usize)
    requires
        ray_scan(nodes, hole, outer, outer, None, nodes.len()) matches Some(hit) && touches(
            nodes,
            hole,
            hit,
        ),
    ensures
        hole_bridge(nodes, hole, outer) == Some(
            ray_scan(nodes, hole, outer, outer, None, nodes.len())->0.node,
        ),
{
}

/// The arena after the hole whose leftmost node is `hole` was bridged to the
/// ring through `outer` and the points on a line at both ends of the bridge
/// were dropped, and a node of the joined ring.
pub open spec fn hole_merged(nodes: Seq<Node>, hole: usize, outer: usize) -> (Seq<Node>, usize) {
    match hole_bridge(nodes, hole, outer) {
        None => (nodes, outer),
        Some(bridge) => {
            let joined = bridged(nodes, bridge, hole);
            let back = (nodes.len() + 1) as usize;
            let first = filtered(joined, back, Some(joined[back as int].next_i)).0;
            filtered(first, bridge, Some(first[bridge as int].next_i))
        },
    }
}

/// Finds the node of the outer ring that the hole is bridged to.
pub fn find_hole_bridge(nodes: &Vec<Node>, hole: usize, outer: usize) -> (bridge: Option<usize>)
    requires
        links_ok(nodes@),
        1 <= hole < nodes.len(),
        1 <= outer < nodes.len(),
    ensures
        bridge == hole_bridge(nodes@, hole, outer),
        bridge matches Some(b) ==> 1 <= b < nodes.len(),
{
    let h: Node = nodes[hole];
    let mut p: usize = outer;
    let mut best: Option<RayHit> = None;
    let mut fuel: usize = nodes.len();
    loop
        invariant_except_break
            fuel >= 1,
            ray_scan(nodes@, hole, p, outer, best, fuel as nat) == ray_scan(
                nodes@,
                hole,
                outer,
                outer,
                None,
                nodes@.len(),
            ),
        invariant
            links_ok(nodes@),
            1 <= hole < nodes.len(),
            1 <= outer < nodes.len(),
            1 <= p < nodes.len(),
            h == nodes@[hole as int],
            best matches Some(b) ==> hit_ok(b, nodes@.len()),
        ensures
            best == ray_scan(nodes@, hole, outer, outer, None, nodes@.len()),
        decreases fuel,
    {
        let np: Node = nodes[p];
        let nn: Node = nodes[np.next_i];
        let mut found: Option<RayHit> = None;
        if h.y <= np.y && h.y >= nn.y && nn.y != np.y {
            let den: i64 = np.y as i64 - nn.y as i64;
            let num: i128 = mul_small(np.x as i64, den) + mul_small(
                np.y as i64 - h.y as i64,
                nn.x as i64 - np.x as i64,
            );
            proof {
                lemma_product_bound(
                    np.x as int,
                    den as int,
                    0x8000_0000,
                    0xffff_ffff,
                );
                lemma_product_bound(
                    np.y - h.y,
                    nn.x - np.x,
                    0xffff_ffff,
                    0xffff_ffff,
                );
            }
            let nearer: bool = match best {
                Some(b) => mul_wide(num, b.den) > mul_wide(b.num, den),
                None => true,
            };
            if num <= mul_small(h.x as i64, den) && nearer {
                let end: usize = if np.x == h.x && np.y == h.y {
                    p
                } else if nn.x == h.x && nn.y == h.y {
                    np.next_i
                } else if np.x < nn.x {
                    p
                } else {
                    np.next_i
                };
                found = Some(RayHit { node: end, num, den });
            }
        }
        assert(found == edge_hit(nodes@, hole, p, best));
        if let Some(f) = found {
            best = found;
            if f.num == mul_small(h.x as i64, f.den) {
                break;
            }
        }
        p = np.next_i;
        fuel = fuel - 1;
        if p == outer || fuel == 0 {
            break;
        }
    }
    let hit: RayHit = match best {
        Some(b) => b,
        None => {
            return None;
        },
    };
    if hit.num == mul_small(h.x as i64, hit.den) {
        return Some(hit.node);
    }
    let stop: usize = hit.node;
    let mx: i32 = nodes[stop].x;
    let my: i32 = nodes[stop].y;
    let mut m: usize = stop;
    let mut tn: i64 = 1;
    let mut td: i64 = 0;
    let mut p: usize = stop;
    let mut fuel: usize = nodes.len();
    loop
        invariant
            links_ok(nodes@),
            1 <= hole < nodes.len(),
            1 <= p < nodes.len(),
            1 <= m < nodes.len(),
            1 <= stop < nodes.len(),
            h == nodes@[hole as int],
            hit_ok(hit, nodes@.len()),
            ray_scan(nodes@, hole, outer, outer, None, nodes@.len()) == Some(hit),
            !touches(nodes@, hole, hit),
            stop == hit.node,
            mx == nodes@[stop as int].x,
            my == nodes@[stop as int].y,
            0 <= tn <= 0xffff_ffff,
            0 <= td <= 0xffff_ffff,
            fuel >= 1,
            bridge_scan(nodes@, hole, hit, mx, my, p, stop, m, tn as int, td as int, fuel as nat)
                == bridge_scan(
                nodes@,
                hole,
                hit,
                mx,
                my,
                stop,
                stop,
                stop,
                1,
                0,
                nodes@.len(),
            ),
        decreases fuel,
    {
        let np: Node = nodes[p];
        let mut takes: bool = false;
        let a: i64 = if h.y >= np.y {
            h.y as i64 - np.y as i64
        } else {
            np.y as i64 - h.y as i64
        };
        let b: i64 = h.x as i64 - np.x as i64;
        if h.x >= np.x && np.x >= mx && h.x != np.x {
            let hx: i128 = mul_small(h.x as i64, hit.den);
            let ax: i128 = if h.y < my {
                hx
            } else {
                hit.num
            };
            let cx: i128 = if h.y < my {
                hit.num
            } else {
                hx
            };
            if point_in_triangle(
                ax,
                h.y,
                mul_small(mx as i64, hit.den),
                my,
                cx,
                h.y,
                mul_small(np.x as i64, hit.den),
                np.y,
            ) {
                let l: i128 = mul_small(a, td);
                let r: i128 = mul_small(tn, b);
                let nm: Node = nodes[m];
                takes = locally_inside(nodes, p, hole) && (l < r || (l == r && (np.x > nm.x || (
                np.x == nm.x && sector_contains_sector(nodes, m, p)))));
            }
        }
        assert(takes == (in_bridge_sector(nodes@, hole, hit, mx, my, p) && better_bridge(
            nodes@,
            hole,
            m,
            tn as int,
            td as int,
            p,
        )));
        if takes {
            m = p;
            tn = a;
            td = b;
        }
        p = np.next_i;
        fuel = fuel - 1;
        if p == stop || fuel == 0 {
            return Some(m);
        }
    }
}

/// Bridges the hole whose leftmost node is `hole` to the ring through
/// `outer`, and returns a node of the joined ring. Where no bridge is found
/// the hole is left out.
pub fn eliminate_hole(nodes: &mut Vec<Node>, hole: usize, outer: usize) -> (joined: usize)
    requires
        links_ok(old(nodes)@),
        1 <= hole < old(nodes).len(),
        1 <= outer < old(nodes).len(),
    ensures
        (final(nodes)@, joined) == hole_merged(old(nodes)@, hole, outer),
        links_ok(final(nodes)@),
        old(nodes).len() <= final(nodes).len() <= old(nodes).len() + 2,
        vertices_kept(old(nodes)@, final(nodes)@),
        1 <= joined < final(nodes).len(),
{
    let bridge: usize = match find_hole_bridge(nodes, hole, outer) {
        Some(b) => b,
        None => {
            return outer;
        },
    };
    let back: usize = split_polygon(nodes, bridge, hole);
    let end: usize = nodes[back].next_i;
    filter_points(nodes, back, Some(end));
    let end: usize = nodes[bridge].next_i;
    filter_points(nodes, bridge, Some(end))
}

/// Whether the hole listed as `a` is joined before the hole listed as `b`:
/// its leftmost point lies further left, or as far left and lower.
pub open spec fn joins_before(nodes: Seq<Node>, a: (usize, i32), b: (usize, i32)) -> bool {
    a.1 < b.1 || (a.1 == b.1 && nodes[a.0 as int].y < nodes[b.0 as int].y)
}

/// The list after `item` was moved down from position `j` past every entry
/// that it is joined before.
pub open spec fn slid(nodes: Seq<Node>, q: Seq<(usize, i32)>, j: int, item: (usize, i32)) -> Seq<
    (usize, i32),
>
    decreases (if j >= 0 { j } else { 0 }),
{
    if j > 0 && joins_before(nodes, item, q[j - 1]) {
        slid(nodes, q.update(j, q[j - 1]), j - 1, item)
    } else {
        q.update(j, item)
    }
}

/// The list after its entries from position `i` up to `n` were moved down
/// to their places, one after the other.
pub open spec fn ordered_from(nodes: Seq<Node>, q: Seq<(usize, i32)>, i: int, n: int) -> Seq<
    (usize, i32),
>
    decreases (if i < n { n - i } else { 0 }),
{
    if 0 < i < n {
        ordered_from(nodes, slid(nodes, q, i, q[i]), i + 1, n)
    } else {
        q
    }
}

/// The list of holes in the order in which they are joined: by the x of
/// their leftmost point, then by its y, then as they were listed.
pub open spec fn ordered(nodes: Seq<Node>, q: Seq<(usize, i32)>) -> Seq<(usize, i32)> {
    ordered_from(nodes, q, 1, q.len() as int)
}

/// Whether every entry of the list names a node of the arena.
pub open spec fn list_ok(q: Seq<(usize, i32)>, len: nat) -> bool {
    forall|k: int| 0 <= k < q.len() ==> 1 <= (#[trigger] q[k]).0 < len
}

/// Where the ring of hole `k` ends in the buffer.
pub open spec fn hole_end(data: Seq<i32>, holes: Seq<usize>, dim: int, k: int) -> int {
    if k < holes.len() - 1 {
        holes[k + 1] * dim
    } else {
        data.len() as int
    }
}

/// The arena and the list after the rings of the holes from `k` on were
/// built and the leftmost node of each was listed with its x. A hole of a
/// single point is marked as such.
pub open spec fn holes_listed(
    nodes: Seq<Node>,
    q: Seq<(usize, i32)>,
    data: Seq<i32>,
    holes: Seq<usize>,
    dim: int,
    k: int,
) -> (Seq<Node>, Seq<(usize, i32)>)
    decreases (if k < holes.len() { holes.len() - k } else { 0 }),
{
    if 0 <= k < holes.len() {
        let (built, ring) = ring_built(
            nodes,
            data,
            holes[k] * dim,
            hole_end(data, holes, dim, k),
            dim,
            false,
        );
        match ring {
            Some(l) => {
                let marked = if l == built[l as int].next_i {
                    built.update(l as int, Node { steiner: true, ..built[l as int] })
                } else {
                    built
                };
                let left = leftmost(marked, l);
                holes_listed(
                    marked,
                    q.push((left, marked[left as int].x)),
                    data,
                    holes,
                    dim,
                    k + 1,
                )
            },
            None => holes_listed(built, q, data, holes, dim, k + 1),
        }
    } else {
        (nodes, q)
    }
}

/// The arena after the holes listed from position `k` on were joined to the
/// ring through `outer`, and a node of the joined ring.
pub open spec fn holes_joined(nodes: Seq<Node>, q: Seq<(usize, i32)>, k: int, outer: usize) -> (
    Seq<Node>,
    usize,
)
    decreases (if k < q.len() { q.len() - k } else { 0 }),
{
    if 0 <= k < q.len() {
        let (joined, node) = hole_merged(nodes, q[k].0, outer);
        holes_joined(joined, q, k + 1, node)
    } else {
        (nodes, outer)
    }
}

/// The arena after every hole was joined to the ring through `outer`, and a
/// node of the single ring that is left.
pub open spec fn holes_eliminated(
    nodes: Seq<Node>,
    data: Seq<i32>,
    holes: Seq<usize>,
    outer: usize,
    dim: int,
) -> (Seq<Node>, usize) {
    let (built, listed) = holes_listed(nodes, Seq::empty(), data, holes, dim, 0);
    holes_joined(built, ordered(built, listed), 0, outer)
}

/// The list of the holes in the order in which they are joined: for each
/// hole that has a vertex its leftmost node with that node's x, by x, then
/// by y, then as the holes were listed.
pub open spec fn holes_queue(nodes: Seq<Node>, data: Seq<i32>, holes: Seq<usize>, dim: int) -> Seq<
    (usize, i32),
> {
    let (built, listed) = holes_listed(nodes, Seq::empty(), data, holes, dim, 0);
    ordered(built, listed)
}

/// Whether the hole offsets fit the buffer: each is a vertex of the buffer,
/// and they ascend.
pub open spec fn holes_ok(data: Seq<i32>, holes: Seq<usize>, dim: int) -> bool {
    &&& forall|k: int| 0 <= k < holes.len() ==> (#[trigger] holes[k]) * dim <= data.len()
    &&& forall|j: int, k: int| 0 <= j <= k < holes.len() ==> holes[j] <= holes[k]
}

/// Whether the first `n` entries of the list stand in the order in which
/// holes are joined: no entry is joined before an entry that stands before
/// it.
pub open spec fn in_order(nodes: Seq<Node>, q: Seq<(usize, i32)>, n: int) -> bool {
    forall|a: int, b: int| 0 <= a < b < n ==> !joins_before(nodes, #[trigger] q[b], #[trigger] q[a])
}

/// Puts the listed holes in the order in which they are joined: by the x of
/// their leftmost point, then by its y; holes that agree in both stay as
/// they were listed.
pub fn sort_holes(queue: &mut Vec<(usize, i32)>, nodes: &Vec<Node>)
    requires
        list_ok(old(queue)@, nodes@.len()),
    ensures
        final(queue)@ == ordered(nodes@, old(queue)@),
        in_order(nodes@, final(queue)@, final(queue)@.len() as int),
        final(queue)@.to_multiset() == old(queue)@.to_multiset(),
        list_ok(final(queue)@, nodes@.len()),
{
    let n: usize = queue.len();
    let mut i: usize = 1;
    while i < n
        invariant
            1 <= i,
            queue.len() == n,
            list_ok(queue@, nodes@.len()),
            in_order(nodes@, queue@, (if i <= n { i as int } else { n as int })),
            queue@.to_multiset() == old(queue)@.to_multiset(),
            ordered_from(nodes@, queue@, i as int, n as int) == ordered(nodes@, old(queue)@),
        decreases n - i,
    {
        let item: (usize, i32) = queue[i];
        let mut j: usize = i;
        let ghost goal = slid(nodes@, queue@, i as int, item);
        let ghost all = queue@.to_multiset();
        proof {
            assert(queue@.update(i as int, item) =~= queue@);
        }
        while j > 0 && (item.1 < queue[j - 1].1 || (item.1 == queue[j - 1].1 && nodes[item.0].y
            < nodes[queue[j - 1].0].y))
            invariant
                j <= i < n,
                queue.len() == n,
                1 <= item.0 < nodes@.len(),
                list_ok(queue@, nodes@.len()),
                forall|a: int, b: int|
                    0 <= a < b <= i && a != j && b != j ==> !joins_before(
                        nodes@,
                        #[trigger] queue@[b],
                        #[trigger] queue@[a],
                    ),
                forall|b: int| j < b <= i ==> joins_before(nodes@, item, #[trigger] queue@[b]),
                queue@.update(j as int, item).to_multiset() == all,
                slid(nodes@, queue@, j as int, item) == goal,
            decreases j,
        {
            let below: (usize, i32) = queue[j - 1];
            let ghost before = queue@;
            queue[j] = below;
            proof {
                broadcast use vstd::multiset::group_multiset_axioms;

                vstd::seq_lib::to_multiset_update(before, j as int, item);
                vstd::seq_lib::to_multiset_update(before, j as int, below);
                vstd::seq_lib::to_multiset_update(queue@, j - 1, item);
                let bag = before.to_multiset();
                assert(bag.count(before[j as int]) >= 1) by {
                    before.to_multiset_ensures();
                    assert(before.contains(before[j as int]));
                }
                assert(queue@.update(j - 1, item).to_multiset() =~= all);
            }
            j = j - 1;
        }
        queue[j] = item;
        i = i + 1;
    }
}

/// Joins every hole to the ring through `outer`, from the leftmost hole to
/// the rightmost, and returns a node of the single ring that is left. The
/// list is left holding the holes in the order in which they were joined.
pub fn eliminate_holes(
    nodes: &mut Vec<Node>,
    queue: &mut Vec<(usize, i32)>,
    data: &[i32],
    hole_indices: &[usize],
    outer: usize,
    dim: usize,
) -> (joined: usize)
    requires
        links_ok(old(nodes)@),
        1 <= outer < old(nodes).len(),
        dim >= 2,
        data.len() % dim == 0,
        holes_ok(data@, hole_indices@, dim as int),
    ensures
        (final(nodes)@, joined) == holes_eliminated(
            old(nodes)@,
            data@,
            hole_indices@,
            outer,
            dim as int,
        ),
        final(queue)@ == holes_queue(old(nodes)@, data@, hole_indices@, dim as int),
        in_order(
            holes_listed(old(nodes)@, Seq::empty(), data@, hole_indices@, dim as int, 0).0,
            final(queue)@,
            final(queue)@.len() as int,
        ),
        links_ok(final(nodes)@),
        old(nodes).len() <= final(nodes).len(),
        forall|limit: int|
            #[trigger] vertices_below(old(nodes)@, limit) && data.len() <= limit
                ==> vertices_below(final(nodes)@, limit),
        1 <= joined < final(nodes).len(),
{
    queue.clear();
    let mut k: usize = 0;
    while k < hole_indices.len()
        invariant
            links_ok(nodes@),
            old(nodes).len() <= nodes.len(),
            dim >= 2,
            data.len() % dim == 0,
            holes_ok(data@, hole_indices@, dim as int),
            k <= hole_indices.len(),
            forall|limit: int|
                #[trigger] vertices_below(old(nodes)@, limit) && data.len() <= limit
                    ==> vertices_below(nodes@, limit),
            list_ok(queue@, nodes@.len()),
            holes_listed(nodes@, queue@, data@, hole_indices@, dim as int, k as int)
                == holes_listed(old(nodes)@, Seq::empty(), data@, hole_indices@, dim as int, 0),
        decreases hole_indices.len() - k,
    {
        assert(hole_indices@[k as int] * dim <= data.len());
        assert(k < hole_indices.len() - 1 ==> hole_indices@[k + 1] * dim <= data.len());
        let start: usize = hole_indices[k] * dim;
        let end: usize = if k < hole_indices.len() - 1 {
            hole_indices[k + 1] * dim
        } else {
            data.len()
        };
        proof {
            if k < hole_indices.len() - 1 {
                lemma_scaled_order(
                    hole_indices@[k as int] as int,
                    hole_indices@[k + 1] as int,
                    dim as int,
                );
                lemma_aligned_diff(
                    hole_indices@[k + 1] as int,
                    hole_indices@[k as int] as int,
                    dim as int,
                );
            } else {
                lemma_aligned(data.len() as int, hole_indices@[k as int] as int, dim as int);
            }
        }
        if let Some(l) = linked_list(nodes, data, start, end, dim, false) {
            if l == nodes[l].next_i {
                nodes[l].steiner = true;
            }
            let left: usize = get_leftmost(nodes, l);
            queue.push((left, nodes[left].x));
        }
        k = k + 1;
    }
    sort_holes(queue, nodes);
    let mut joined: usize = outer;
    let mut k: usize = 0;
    let ghost built = nodes@;
    let ghost sorted = queue@;
    while k < queue.len()
        invariant
            queue@ == sorted,
            links_ok(nodes@),
            built.len() <= nodes.len(),
            old(nodes).len() <= nodes.len(),
            k <= queue.len(),
            1 <= joined < nodes.len(),
            forall|limit: int|
                #[trigger] vertices_below(old(nodes)@, limit) && data.len() <= limit
                    ==> vertices_below(nodes@, limit),
            list_ok(queue@, built.len()),
            holes_joined(nodes@, queue@, k as int, joined) == holes_eliminated(
                old(nodes)@,
                data@,
                hole_indices@,
                outer,
                dim as int,
            ),
        decreases queue.len() - k,
    {
        let hole: usize = queue[k].0;
        joined = eliminate_hole(nodes, hole, joined);
        k = k + 1;
    }
    joined
}

} // verus!
