//! The z-order index: a second list through the nodes of a ring, sorted by a
//! key that interleaves the bits of the two coordinates.

use vstd::prelude::*;
use crate::arena::{link_in, links_ok, node_ok, same_vertices, vertices_kept, Node};
use crate::geometry::{area, div_to_zero, in_triangle, orient, point_in_triangle, quotient};

verus! {

/// The bits of `v` with its two halves interleaved: bit `k` of the lower
/// half goes to bit `2k`, bit `k` of the upper half to bit `2k + 1`.
pub open spec fn interleaved(v: u64) -> u64 {
    let a = (v | (v << 8)) & 0x00FF00FF00FF00FF;
    let b = (a | (a << 4)) & 0x0F0F0F0F0F0F0F0F;
    let c = (b | (b << 2)) & 0x3333333333333333;
    let d = (c | (c << 1)) & 0x5555555555555555;
    (d >> 32) | (d << 1)
}

/// The z-order key of the point `(x, y)` in a box whose lower corner is
/// `(min_x, min_y)` and whose longer side is `size`: both coordinates are
/// scaled to the range from 0 to 32767 and their bits are interleaved.
pub open spec fn z_key(x: i32, y: i32, min_x: i32, min_y: i32, size: i64) -> i32 {
    let zx = quotient((x - min_x) * 32767, size as int) as i64;
    let zy = quotient((y - min_y) * 32767, size as int) as i64;
    interleaved(((zx as u64) << 32) | (zy as u64)) as i32
}

/// The z-order key of the point `(x, y)`, for a box with lower corner
/// `(min_x, min_y)` and longer side `size`.
pub fn z_order(x: i32, y: i32, min_x: i32, min_y: i32, size: i64) -> (z: i32)
    requires
        size > 0,
    ensures
        z == z_key(x, y, min_x, min_y, size),
{
    let zx: i64 = div_to_zero(((x as i64 - min_x as i64) * 32767) as i128, size as i128) as i64;
    let zy: i64 = div_to_zero(((y as i64 - min_y as i64) * 32767) as i128, size as i128) as i64;
    let mut v: u64 = ((zx as u64) << 32) | (zy as u64);
    v = (v | (v << 8)) & 0x00FF00FF00FF00FF;
    v = (v | (v << 4)) & 0x0F0F0F0F0F0F0F0F;
    v = (v | (v << 2)) & 0x3333333333333333;
    v = (v | (v << 1)) & 0x5555555555555555;
    ((v >> 32) | (v << 1)) as i32
}

/// For two coordinates of 15 bits each, the interleaved bits are the sum
/// of the spread-out bits of the one and twice those of the other, and
/// spreading the bits out keeps the order.
pub proof fn lemma_interleaved_order(x: u64, y: u64, x2: u64, y2: u64)
    requires
        x <= x2 <= 0x7fff,
        y <= y2 <= 0x7fff,
    ensures
        (interleaved((x << 32) | y) as i32) <= (interleaved((x2 << 32) | y2) as i32),
        0 <= (interleaved((x << 32) | y) as i32),
{
    let k = interleaved((x << 32) | y);
    let k2 = interleaved((x2 << 32) | y2);
    assert((interleaved((x << 32) | y) & 0xffff_ffff) <= (interleaved((x2 << 32) | y2)
        & 0xffff_ffff) && (interleaved((x << 32) | y) & 0xffff_ffff) <= 0x3fff_ffff
        && (interleaved((x2 << 32) | y2) & 0xffff_ffff) <= 0x3fff_ffff) by (bit_vector)
        requires
            x <= x2 <= 0x7fff,
            y <= y2 <= 0x7fff,
    ;
    assert((k as i32) == (k & 0xffff_ffff)) by (bit_vector)
        requires
            (k & 0xffff_ffff) <= 0x3fff_ffff,
    ;
    assert((k2 as i32) == (k2 & 0xffff_ffff)) by (bit_vector)
        requires
            (k2 & 0xffff_ffff) <= 0x3fff_ffff,
    ;
}

/// Whether the point `(x, y)` lies in the box whose lower corner is
/// `(min_x, min_y)` and whose sides are `size` long.
pub open spec fn in_frame(x: i32, y: i32, min_x: i32, min_y: i32, size: i64) -> bool {
    &&& min_x <= x <= min_x + size
    &&& min_y <= y <= min_y + size
}

/// A coordinate of the box is scaled to a number of 15 bits, and a greater
/// coordinate to no lesser number.
pub proof fn lemma_scaling_keeps_order(x: int, x2: int, min: int, size: int)
    requires
        size > 0,
        min <= x <= x2 <= min + size,
    ensures
        0 <= quotient((x - min) * 32767, size) <= quotient((x2 - min) * 32767, size) <= 32767,
{
    let a = (x - min) * 32767;
    let b = (x2 - min) * 32767;
    let top = size * 32767;
    assert(0 <= a <= b <= top);
    vstd::arithmetic::div_mod::lemma_div_is_ordered(0, a, size);
    vstd::arithmetic::div_mod::lemma_div_is_ordered(a, b, size);
    vstd::arithmetic::div_mod::lemma_div_is_ordered(b, top, size);
    vstd::arithmetic::div_mod::lemma_div_multiples_vanish(32767, size);
    assert(size * 32767 == top);
    assert(0int / size == 0) by {
        vstd::arithmetic::div_mod::lemma_div_basics(size);
    }
}

/// In the box, the key of a point is no greater than the key of a point
/// that lies no further left and no lower.
pub proof fn lemma_key_order(x: i32, y: i32, x2: i32, y2: i32, min_x: i32, min_y: i32, size: i64)
    requires
        size > 0,
        in_frame(x, y, min_x, min_y, size),
        in_frame(x2, y2, min_x, min_y, size),
        x <= x2,
        y <= y2,
    ensures
        z_key(x, y, min_x, min_y, size) <= z_key(x2, y2, min_x, min_y, size),
{
    lemma_scaling_keeps_order(x as int, x2 as int, min_x as int, size as int);
    lemma_scaling_keeps_order(y as int, y2 as int, min_y as int, size as int);
    let zx = quotient((x - min_x) * 32767, size as int) as i64;
    let zy = quotient((y - min_y) * 32767, size as int) as i64;
    let zx2 = quotient((x2 - min_x) * 32767, size as int) as i64;
    let zy2 = quotient((y2 - min_y) * 32767, size as int) as i64;
    lemma_interleaved_order(zx as u64, zy as u64, zx2 as u64, zy2 as u64);
}

/// The least of three numbers.
pub open spec fn least(a: i32, b: i32, c: i32) -> i32 {
    if a <= b && a <= c {
        a
    } else if b <= c {
        b
    } else {
        c
    }
}

/// The greatest of three numbers.
pub open spec fn greatest(a: i32, b: i32, c: i32) -> i32 {
    if a >= b && a >= c {
        a
    } else if b >= c {
        b
    } else {
        c
    }
}

/// Whether the node `p`, between `prev` and `next`, stands in the way of
/// cutting the ear `a`, `b`, `c`: it lies in the triangle, and the ring is
/// not convex at it.
pub open spec fn blocks(a: Node, b: Node, c: Node, prev: Node, p: Node, next: Node) -> bool {
    &&& least(a.x, b.x, c.x) <= p.x <= greatest(a.x, b.x, c.x)
    &&& least(a.y, b.y, c.y) <= p.y <= greatest(a.y, b.y, c.y)
    &&& in_triangle(
        a.x as int,
        a.y as int,
        b.x as int,
        b.y as int,
        c.x as int,
        c.y as int,
        p.x as int,
        p.y as int,
    )
    &&& orient(prev, p, next) >= 0
}

/// The least of three numbers.
pub fn min3(a: i32, b: i32, c: i32) -> (m: i32)
    ensures
        m == least(a, b, c),
{
    if a <= b && a <= c {
        a
    } else if b <= c {
        b
    } else {
        c
    }
}

/// The greatest of three numbers.
pub fn max3(a: i32, b: i32, c: i32) -> (m: i32)
    ensures
        m == greatest(a, b, c),
{
    if a >= b && a >= c {
        a
    } else if b >= c {
        b
    } else {
        c
    }
}

/// Whether the node `p`, between `prev` and `next`, stands in the way of
/// cutting the ear `a`, `b`, `c`.
pub fn in_the_way(a: &Node, b: &Node, c: &Node, prev: &Node, p: &Node, next: &Node) -> (blocked:
    bool)
    ensures
        blocked == blocks(*a, *b, *c, *prev, *p, *next),
{
    p.x >= min3(a.x, b.x, c.x) && p.x <= max3(a.x, b.x, c.x) && p.y >= min3(a.y, b.y, c.y) && p.y
        <= max3(a.y, b.y, c.y) && point_in_triangle(
        a.x as i128,
        a.y,
        b.x as i128,
        b.y,
        c.x as i128,
        c.y,
        p.x as i128,
        p.y,
    ) && area(prev, p, next) >= 0
}

/// The node `p` with its key set, unless it has one, and with its z-order
/// links set to its ring neighbours.
pub open spec fn keyed(p: Node, min_x: i32, min_y: i32, size: i64) -> Node {
    Node {
        z: if p.z == 0 {
            z_key(p.x, p.y, min_x, min_y, size)
        } else {
            p.z
        },
        prev_z_i: Some(p.prev_i),
        next_z_i: Some(p.next_i),
        ..p
    }
}

/// The arena after the nodes on the walk from `p` back to `start` were
/// keyed, and the node that the walk ended on.
pub open spec fn keyed_from(
    nodes: Seq<Node>,
    p: usize,
    start: usize,
    min_x: i32,
    min_y: i32,
    size: i64,
    fuel: nat,
) -> (Seq<Node>, usize)
    decreases fuel,
{
    let after = nodes.update(p as int, keyed(nodes[p as int], min_x, min_y, size));
    let next = nodes[p as int].next_i;
    if fuel <= 1 || next == start {
        (after, next)
    } else {
        keyed_from(after, next, start, min_x, min_y, size, (fuel - 1) as nat)
    }
}

/// The arena after the z-order list was opened at the node `p`: `p` becomes
/// its first node and the node before `p` its last.
pub open spec fn opened(nodes: Seq<Node>, p: usize) -> Seq<Node> {
    match nodes[p as int].prev_z_i {
        Some(before) => {
            let n1 = nodes.update(p as int, Node { prev_z_i: None, ..nodes[p as int] });
            n1.update(before as int, Node { next_z_i: None, ..n1[before as int] })
        },
        None => nodes,
    }
}

/// Where a run of the list that starts at `q` ends, and `size` plus its
/// length, for a run of at most `steps` nodes.
pub open spec fn run_end(nodes: Seq<Node>, q: Option<usize>, size: nat, steps: nat) -> (
    Option<usize>,
    nat,
)
    decreases steps,
{
    match q {
        Some(i) => if steps > 0 {
            run_end(nodes, nodes[i as int].next_z_i, size + 1, (steps - 1) as nat)
        } else {
            (q, size)
        },
        None => (q, size),
    }
}

/// The state of a merge of two neighbouring runs of the z-order list: what
/// is left of each run, and the list that has been put together so far.
pub struct Merge {
    /// The next node of the first run.
    pub p: Option<usize>,
    /// The number of nodes that are left of the first run.
    pub p_size: usize,
    /// The next node of the second run.
    pub q: Option<usize>,
    /// The most nodes that may be left of the second run.
    pub q_size: usize,
    /// The first node of the list that has been put together.
    pub head: Option<usize>,
    /// The last node of the list that has been put together.
    pub tail: Option<usize>,
}

/// Which run gives the next node: `Some(true)` for the first, `Some(false)`
/// for the second, `None` where both are used up. Of two nodes with the same
/// key the one of the first run goes first, so that the sort is stable.
pub open spec fn next_from_first(nodes: Seq<Node>, m: Merge) -> Option<bool> {
    if m.p_size > 0 {
        match m.p {
            Some(pi) => Some(
                !(m.q_size > 0 && (m.q matches Some(qi) && nodes[pi as int].z
                    > nodes[qi as int].z)),
            ),
            None => None,
        }
    } else if m.q_size > 0 {
        match m.q {
            Some(qi) => Some(false),
            None => None,
        }
    } else {
        None
    }
}

/// The arena and the state after the two runs were merged to the end.
pub open spec fn merged(nodes: Seq<Node>, m: Merge) -> (Seq<Node>, Merge)
    decreases m.p_size + m.q_size,
{
    match next_from_first(nodes, m) {
        None => (nodes, m),
        Some(first) => {
            let e = if first {
                m.p->0
            } else {
                m.q->0
            };
            let n1 = nodes.update(e as int, Node { prev_z_i: m.tail, ..nodes[e as int] });
            let rest = n1[e as int].next_z_i;
            let n2 = match m.tail {
                Some(t) => n1.update(t as int, Node { next_z_i: Some(e), ..n1[t as int] }),
                None => n1,
            };
            let head = match m.tail {
                Some(t) => m.head,
                None => Some(e),
            };
            if first {
                merged(
                    n2,
                    Merge { p: rest, p_size: (m.p_size - 1) as usize, head, tail: Some(e), ..m },
                )
            } else {
                merged(
                    n2,
                    Merge { q: rest, q_size: (m.q_size - 1) as usize, head, tail: Some(e), ..m },
                )
            }
        },
    }
}

/// The arena after one pass over the list from `p` on, which merges each
/// two neighbouring runs of `in_size` nodes; with the head and the tail of
/// the new list and the number of merges made.
pub open spec fn pass(
    nodes: Seq<Node>,
    p: Option<usize>,
    in_size: usize,
    head: Option<usize>,
    tail: Option<usize>,
    merges: nat,
    fuel: nat,
) -> (Seq<Node>, Option<usize>, Option<usize>, nat)
    decreases fuel,
{
    match p {
        Some(pi) => if fuel > 0 {
            let (q, p_size) = run_end(nodes, nodes[pi as int].next_z_i, 1, (in_size - 1) as nat);
            let (n1, m) = merged(
                nodes,
                Merge { p, p_size: p_size as usize, q, q_size: in_size, head, tail },
            );
            pass(n1, m.q, in_size, m.head, m.tail, merges + 1, (fuel - 1) as nat)
        } else {
            (nodes, head, tail, merges)
        },
        None => (nodes, head, tail, merges),
    }
}

/// The arena after the z-order list that starts at `list` was sorted by
/// key, by passes that merge runs of `in_size`, then twice as many, nodes,
/// in an arena of `n` nodes.
pub open spec fn sorted_from(nodes: Seq<Node>, list: Option<usize>, in_size: usize, n: usize) -> Seq<
    Node,
>
    decreases (if in_size < n { n - in_size } else { 0 }),
{
    let (n1, head, tail, merges) = pass(nodes, list, in_size, None, None, 0, n as nat);
    let n2 = match tail {
        Some(t) => n1.update(t as int, Node { next_z_i: None, ..n1[t as int] }),
        None => n1,
    };
    if merges <= 1 || in_size >= n || in_size == 0 {
        n2
    } else {
        sorted_from(n2, head, doubled(in_size, n), n)
    }
}

/// Twice `in_size`, or `n` where that is less.
pub open spec fn doubled(in_size: usize, n: usize) -> usize {
    if in_size > n - in_size {
        n
    } else {
        (2 * in_size) as usize
    }
}

/// The arena after the z-order list that starts at `list` was sorted by
/// key; nodes with the same key keep their order.
pub open spec fn sorted(nodes: Seq<Node>, list: usize) -> Seq<Node> {
    sorted_from(nodes, Some(list), 1, nodes.len() as usize)
}

/// The arena after the ring through `start` was indexed: every node has its
/// key, and the z-order list runs through the ring's nodes by ascending key.
pub open spec fn indexed(nodes: Seq<Node>, start: usize, min_x: i32, min_y: i32, size: i64) -> Seq<
    Node,
> {
    let (keyed, p) = keyed_from(nodes, start, start, min_x, min_y, size, nodes.len());
    sorted(opened(keyed, p), p)
}

/// A merge keeps every link in the arena.
pub proof fn lemma_merged_ok(nodes: Seq<Node>, m: Merge)
    requires
        links_ok(nodes),
        link_in(m.p, nodes.len()),
        link_in(m.q, nodes.len()),
        link_in(m.head, nodes.len()),
        link_in(m.tail, nodes.len()),
    ensures
        links_ok(merged(nodes, m).0),
        merged(nodes, m).0.len() == nodes.len(),
        same_vertices(nodes, merged(nodes, m).0),
        link_in(merged(nodes, m).1.q, nodes.len()),
        link_in(merged(nodes, m).1.head, nodes.len()),
        link_in(merged(nodes, m).1.tail, nodes.len()),
    decreases m.p_size + m.q_size,
{
    match next_from_first(nodes, m) {
        None => {},
        Some(first) => {
            let e = if first {
                m.p->0
            } else {
                m.q->0
            };
            assert(1 <= e < nodes.len());
            assert(node_ok(nodes[e as int], nodes.len()));
            let n1 = nodes.update(e as int, Node { prev_z_i: m.tail, ..nodes[e as int] });
            let rest = n1[e as int].next_z_i;
            let n2 = match m.tail {
                Some(t) => n1.update(t as int, Node { next_z_i: Some(e), ..n1[t as int] }),
                None => n1,
            };
            let head = match m.tail {
                Some(t) => m.head,
                None => Some(e),
            };
            assert(links_ok(n1)) by {
                assert forall|k: int| 1 <= k < n1.len() implies node_ok(
                    #[trigger] n1[k],
                    n1.len(),
                ) by {
                    assert(node_ok(nodes[k], nodes.len()));
                }
            }
            assert(links_ok(n2)) by {
                assert forall|k: int| 1 <= k < n2.len() implies node_ok(
                    #[trigger] n2[k],
                    n2.len(),
                ) by {
                    assert(node_ok(n1[k], n1.len()));
                }
            }
            if first {
                lemma_merged_ok(
                    n2,
                    Merge { p: rest, p_size: (m.p_size - 1) as usize, head, tail: Some(e), ..m },
                );
            } else {
                lemma_merged_ok(
                    n2,
                    Merge { q: rest, q_size: (m.q_size - 1) as usize, head, tail: Some(e), ..m },
                );
            }
        },
    }
}

/// Counting a run ends on a node of the arena, or on none.
pub proof fn lemma_run_end_ok(nodes: Seq<Node>, q: Option<usize>, size: nat, steps: nat)
    requires
        links_ok(nodes),
        link_in(q, nodes.len()),
    ensures
        link_in(run_end(nodes, q, size, steps).0, nodes.len()),
    decreases steps,
{
    if let Some(i) = q {
        if steps > 0 {
            assert(node_ok(nodes[i as int], nodes.len()));
            lemma_run_end_ok(nodes, nodes[i as int].next_z_i, size + 1, (steps - 1) as nat);
        }
    }
}

/// A pass keeps every link in the arena.
pub proof fn lemma_pass_ok(
    nodes: Seq<Node>,
    p: Option<usize>,
    in_size: usize,
    head: Option<usize>,
    tail: Option<usize>,
    merges: nat,
    fuel: nat,
)
    requires
        links_ok(nodes),
        link_in(p, nodes.len()),
        link_in(head, nodes.len()),
        link_in(tail, nodes.len()),
    ensures
        links_ok(pass(nodes, p, in_size, head, tail, merges, fuel).0),
        pass(nodes, p, in_size, head, tail, merges, fuel).0.len() == nodes.len(),
        same_vertices(nodes, pass(nodes, p, in_size, head, tail, merges, fuel).0),
        link_in(pass(nodes, p, in_size, head, tail, merges, fuel).1, nodes.len()),
        link_in(pass(nodes, p, in_size, head, tail, merges, fuel).2, nodes.len()),
    decreases fuel,
{
    if let Some(pi) = p {
        if fuel > 0 {
            assert(node_ok(nodes[pi as int], nodes.len()));
            lemma_run_end_ok(nodes, nodes[pi as int].next_z_i, 1, (in_size - 1) as nat);
            let (q, p_size) = run_end(nodes, nodes[pi as int].next_z_i, 1, (in_size - 1) as nat);
            let m = Merge { p, p_size: p_size as usize, q, q_size: in_size, head, tail };
            lemma_merged_ok(nodes, m);
            let (n1, m1) = merged(nodes, m);
            lemma_pass_ok(n1, m1.q, in_size, m1.head, m1.tail, merges + 1, (fuel - 1) as nat);
        }
    }
}

/// The sort keeps every link in the arena.
pub proof fn lemma_sorted_from_ok(nodes: Seq<Node>, list: Option<usize>, in_size: usize, n: usize)
    requires
        links_ok(nodes),
        link_in(list, nodes.len()),
    ensures
        links_ok(sorted_from(nodes, list, in_size, n)),
        sorted_from(nodes, list, in_size, n).len() == nodes.len(),
        same_vertices(nodes, sorted_from(nodes, list, in_size, n)),
    decreases (if in_size < n { n - in_size } else { 0 }),
{
    lemma_pass_ok(nodes, list, in_size, None, None, 0, n as nat);
    let (n1, head, tail, merges) = pass(nodes, list, in_size, None, None, 0, n as nat);
    let n2 = match tail {
        Some(t) => n1.update(t as int, Node { next_z_i: None, ..n1[t as int] }),
        None => n1,
    };
    assert(links_ok(n2)) by {
        assert forall|k: int| 1 <= k < n2.len() implies node_ok(#[trigger] n2[k], n2.len()) by {
            assert(node_ok(n1[k], n1.len()));
        }
    }
    if merges <= 1 || in_size >= n || in_size == 0 {
    } else {
        lemma_sorted_from_ok(n2, head, doubled(in_size, n), n);
    }
}

/// Keying the nodes of a walk keeps every link in the arena.
pub proof fn lemma_keyed_from_ok(
    nodes: Seq<Node>,
    p: usize,
    start: usize,
    min_x: i32,
    min_y: i32,
    size: i64,
    fuel: nat,
)
    requires
        links_ok(nodes),
        1 <= p < nodes.len(),
    ensures
        links_ok(keyed_from(nodes, p, start, min_x, min_y, size, fuel).0),
        keyed_from(nodes, p, start, min_x, min_y, size, fuel).0.len() == nodes.len(),
        same_vertices(nodes, keyed_from(nodes, p, start, min_x, min_y, size, fuel).0),
        1 <= keyed_from(nodes, p, start, min_x, min_y, size, fuel).1 < nodes.len(),
    decreases fuel,
{
    assert(node_ok(nodes[p as int], nodes.len()));
    let after = nodes.update(p as int, keyed(nodes[p as int], min_x, min_y, size));
    assert(links_ok(after)) by {
        assert forall|k: int| 1 <= k < after.len() implies node_ok(
            #[trigger] after[k],
            after.len(),
        ) by {
            assert(node_ok(nodes[k], nodes.len()));
        }
    }
    let next = nodes[p as int].next_i;
    if fuel <= 1 || next == start {
    } else {
        lemma_keyed_from_ok(after, next, start, min_x, min_y, size, (fuel - 1) as nat);
    }
}

/// Indexing a ring keeps every link in the arena.
pub proof fn lemma_indexed_ok(nodes: Seq<Node>, start: usize, min_x: i32, min_y: i32, size: i64)
    requires
        links_ok(nodes),
        1 <= start < nodes.len(),
    ensures
        links_ok(indexed(nodes, start, min_x, min_y, size)),
        indexed(nodes, start, min_x, min_y, size).len() == nodes.len(),
        same_vertices(nodes, indexed(nodes, start, min_x, min_y, size)),
{
    lemma_keyed_from_ok(nodes, start, start, min_x, min_y, size, nodes.len());
    let (keyed_all, p) = keyed_from(nodes, start, start, min_x, min_y, size, nodes.len());
    let open_list = opened(keyed_all, p);
    assert(node_ok(keyed_all[p as int], keyed_all.len()));
    assert(links_ok(open_list)) by {
        assert forall|k: int| 1 <= k < open_list.len() implies node_ok(
            #[trigger] open_list[k],
            open_list.len(),
        ) by {
            assert(node_ok(keyed_all[k], keyed_all.len()));
        }
    }
    lemma_sorted_from_ok(open_list, Some(p), 1, open_list.len() as usize);
}

/// Merges two neighbouring runs of the z-order list behind what has been
/// put together so far.
pub fn merge_runs(nodes: &mut Vec<Node>, start: Merge) -> (end: Merge)
    requires
        links_ok(old(nodes)@),
        link_in(start.p, old(nodes)@.len()),
        link_in(start.q, old(nodes)@.len()),
        link_in(start.head, old(nodes)@.len()),
        link_in(start.tail, old(nodes)@.len()),
    ensures
        (final(nodes)@, end) == merged(old(nodes)@, start),
        final(nodes).len() == old(nodes).len(),
        links_ok(final(nodes)@),
        vertices_kept(old(nodes)@, final(nodes)@),
        link_in(end.q, final(nodes)@.len()),
        link_in(end.head, final(nodes)@.len()),
        link_in(end.tail, final(nodes)@.len()),
        start.tail is Some ==> end.tail is Some,
        start.p is Some && start.p_size > 0 ==> end.tail is Some,
{
    let mut m = start;
    loop
        invariant
            links_ok(nodes@),
            nodes.len() == old(nodes).len(),
            vertices_kept(old(nodes)@, nodes@),
            link_in(m.p, nodes@.len()),
            link_in(m.q, nodes@.len()),
            link_in(m.head, nodes@.len()),
            link_in(m.tail, nodes@.len()),
            start.tail is Some ==> m.tail is Some,
            start.p is Some && start.p_size > 0 ==> (m.tail is Some || (m.p is Some && m.p_size
                > 0)),
            merged(nodes@, m) == merged(old(nodes)@, start),
        decreases m.p_size + m.q_size,
    {
        let mut first: bool = true;
        let e: usize;
        if m.p_size > 0 {
            match m.p {
                Some(pi) => {
                    if m.q_size > 0 {
                        if let Some(qi) = m.q {
                            first = !(nodes[pi].z > nodes[qi].z);
                        }
                    }
                },
                None => {
                    return m;
                },
            }
        } else if m.q_size > 0 {
            match m.q {
                Some(qi) => {
                    first = false;
                },
                None => {
                    return m;
                },
            }
        } else {
            return m;
        }
        assert(next_from_first(nodes@, m) == Some(first));
        if first {
            e = m.p.unwrap();
            m.p_size = m.p_size - 1;
            nodes[e].prev_z_i = m.tail;
            m.p = nodes[e].next_z_i;
        } else {
            e = m.q.unwrap();
            m.q_size = m.q_size - 1;
            nodes[e].prev_z_i = m.tail;
            m.q = nodes[e].next_z_i;
        }
        if let Some(t) = m.tail {
            nodes[t].next_z_i = Some(e);
        } else {
            m.head = Some(e);
        }
        m.tail = Some(e);
    }
}

/// Sorts the z-order list that starts at `list` by key, with a merge sort
/// that works on the links alone.
pub fn sort_linked(nodes: &mut Vec<Node>, list: usize)
    requires
        links_ok(old(nodes)@),
        1 <= list < old(nodes).len(),
    ensures
        final(nodes)@ == sorted(old(nodes)@, list),
        final(nodes).len() == old(nodes).len(),
        links_ok(final(nodes)@),
        vertices_kept(old(nodes)@, final(nodes)@),
{
    let n: usize = nodes.len();
    let mut in_size: usize = 1;
    let mut cur: Option<usize> = Some(list);
    loop
        invariant
            links_ok(nodes@),
            nodes.len() == n,
            n == old(nodes).len(),
            vertices_kept(old(nodes)@, nodes@),
            1 <= in_size <= n,
            link_in(cur, nodes@.len()),
            sorted_from(nodes@, cur, in_size, n) == sorted(old(nodes)@, list),
        decreases n - in_size,
    {
        let mut p: Option<usize> = cur;
        let mut head: Option<usize> = None;
        let mut tail: Option<usize> = None;
        let mut merges: usize = 0;
        let ghost before = nodes@;
        while p.is_some() && merges < n
            invariant
                links_ok(nodes@),
                nodes.len() == n,
                vertices_kept(old(nodes)@, nodes@),
                1 <= in_size <= n,
                merges <= n,
                link_in(p, nodes@.len()),
                link_in(head, nodes@.len()),
                link_in(tail, nodes@.len()),
                pass(nodes@, p, in_size, head, tail, merges as nat, (n - merges) as nat) == pass(
                    before,
                    cur,
                    in_size,
                    None,
                    None,
                    0,
                    n as nat,
                ),
            decreases n - merges,
        {
            let pi: usize = p.unwrap();
            merges = merges + 1;
            let mut q: Option<usize> = nodes[pi].next_z_i;
            let mut p_size: usize = 1;
            let mut steps: usize = in_size - 1;
            while steps > 0 && q.is_some()
                invariant
                    links_ok(nodes@),
                    link_in(q, nodes@.len()),
                    1 <= pi < nodes.len(),
                    p_size + steps == in_size,
                    run_end(nodes@, q, p_size as nat, steps as nat) == run_end(
                        nodes@,
                        nodes@[pi as int].next_z_i,
                        1,
                        (in_size - 1) as nat,
                    ),
                decreases steps,
            {
                p_size = p_size + 1;
                q = nodes[q.unwrap()].next_z_i;
                steps = steps - 1;
            }
            let m = merge_runs(nodes, Merge { p, p_size, q, q_size: in_size, head, tail });
            p = m.q;
            head = m.head;
            tail = m.tail;
        }
        assert(pass(before, cur, in_size, None, None, 0, n as nat) == (
            nodes@,
            head,
            tail,
            merges as nat,
        ));
        let ghost merged_all = nodes@;
        if let Some(t) = tail {
            nodes[t].next_z_i = None;
        }
        assert(nodes@ =~= match tail {
            Some(t) => merged_all.update(
                t as int,
                Node { next_z_i: None, ..merged_all[t as int] },
            ),
            None => merged_all,
        });
        if merges <= 1 || in_size >= n {
            return ;
        }
        cur = head;
        in_size = if in_size > n - in_size {
            n
        } else {
            2 * in_size
        };
    }
}

/// Indexes the ring through `start`: gives every node its key, links the
/// nodes in ring order, and sorts that list by key.
pub fn index_curve(nodes: &mut Vec<Node>, start: usize, min_x: i32, min_y: i32, size: i64)
    requires
        links_ok(old(nodes)@),
        1 <= start < old(nodes).len(),
        size > 0,
    ensures
        final(nodes)@ == indexed(old(nodes)@, start, min_x, min_y, size),
        final(nodes).len() == old(nodes).len(),
        links_ok(final(nodes)@),
        vertices_kept(old(nodes)@, final(nodes)@),
{
    let mut p: usize = start;
    let mut fuel: usize = nodes.len();
    loop
        invariant_except_break
            fuel >= 1,
            keyed_from(nodes@, p, start, min_x, min_y, size, fuel as nat) == keyed_from(
                old(nodes)@,
                start,
                start,
                min_x,
                min_y,
                size,
                old(nodes)@.len(),
            ),
        invariant
            links_ok(nodes@),
            nodes.len() == old(nodes).len(),
            vertices_kept(old(nodes)@, nodes@),
            1 <= p < nodes.len(),
            size > 0,
        ensures
            (nodes@, p) == keyed_from(
                old(nodes)@,
                start,
                start,
                min_x,
                min_y,
                size,
                old(nodes)@.len(),
            ),
        decreases fuel,
    {
        let n: Node = nodes[p];
        let ghost prior = nodes@;
        if n.z == 0 {
            nodes[p].z = z_order(n.x, n.y, min_x, min_y, size);
        }
        nodes[p].prev_z_i = Some(n.prev_i);
        nodes[p].next_z_i = Some(n.next_i);
        assert(nodes@ =~= prior.update(p as int, keyed(n, min_x, min_y, size)));
        p = n.next_i;
        fuel = fuel - 1;
        if p == start || fuel == 0 {
            break;
        }
    }
    let ghost keyed_all = nodes@;
    if let Some(before) = nodes[p].prev_z_i {
        nodes[p].prev_z_i = None;
        nodes[before].next_z_i = None;
    }
    assert(vertices_kept(keyed_all, nodes@)) by {
        assert forall|k: int| 0 <= k < nodes@.len() implies (#[trigger] nodes@[k]).i
            == keyed_all[k].i by {}
    }
    sort_linked(nodes, p);
}

/// Whether the node `q` stands in the way of cutting the ear at `ear`: it
/// is neither of the ear's neighbours, it lies in the ear's triangle, and
/// the ring is not convex at it.
pub open spec fn z_blocks(nodes: Seq<Node>, ear: usize, q: usize) -> bool {
    let b = nodes[ear as int];
    let n = nodes[q as int];
    &&& q != b.prev_i
    &&& q != b.next_i
    &&& blocks(
        nodes[b.prev_i as int],
        b,
        nodes[b.next_i as int],
        nodes[n.prev_i as int],
        n,
        nodes[n.next_i as int],
    )
}

/// The search along the z-order list in both directions at once, from `down`
/// towards lesser keys and from `up` towards greater keys, as long as both
/// stay between `min_z` and `max_z`: `None` where a node stands in the way,
/// else the two nodes on which the search ended.
pub open spec fn scan_both(
    nodes: Seq<Node>,
    ear: usize,
    min_z: i32,
    max_z: i32,
    down: Option<usize>,
    up: Option<usize>,
    fuel: nat,
) -> Option<(Option<usize>, Option<usize>)>
    decreases fuel,
{
    if fuel > 0 && (down matches Some(p) && nodes[p as int].z >= min_z) && (up matches Some(n)
        && nodes[n as int].z <= max_z) {
        let p = down->0;
        let n = up->0;
        if z_blocks(nodes, ear, p) || z_blocks(nodes, ear, n) {
            None
        } else {
            scan_both(
                nodes,
                ear,
                min_z,
                max_z,
                nodes[p as int].prev_z_i,
                nodes[n as int].next_z_i,
                (fuel - 1) as nat,
            )
        }
    } else {
        Some((down, up))
    }
}

/// Whether a node stands in the way among those from `down` towards lesser
/// keys whose key is at least `min_z`.
pub open spec fn scan_down(nodes: Seq<Node>, ear: usize, min_z: i32, down: Option<usize>, fuel: nat) -> bool
    decreases fuel,
{
    fuel > 0 && (down matches Some(p) && nodes[p as int].z >= min_z && (z_blocks(nodes, ear, p)
        || scan_down(nodes, ear, min_z, nodes[p as int].prev_z_i, (fuel - 1) as nat)))
}

/// Whether a node stands in the way among those from `up` towards greater
/// keys whose key is at most `max_z`.
pub open spec fn scan_up(nodes: Seq<Node>, ear: usize, max_z: i32, up: Option<usize>, fuel: nat) -> bool
    decreases fuel,
{
    fuel > 0 && (up matches Some(n) && nodes[n as int].z <= max_z && (z_blocks(nodes, ear, n)
        || scan_up(nodes, ear, max_z, nodes[n as int].next_z_i, (fuel - 1) as nat)))
}

/// Whether the node `ear` can be cut off, judged by the nodes of the z-order
/// list whose keys lie in the range of the ear's bounding box: the ring is
/// convex at `ear`, and none of those nodes stands in the way.
pub open spec fn ear_free_hashed(nodes: Seq<Node>, ear: usize, min_x: i32, min_y: i32, size: i64) -> bool {
    let b = nodes[ear as int];
    let a = nodes[b.prev_i as int];
    let c = nodes[b.next_i as int];
    let min_z = z_key(least(a.x, b.x, c.x), least(a.y, b.y, c.y), min_x, min_y, size);
    let max_z = z_key(greatest(a.x, b.x, c.x), greatest(a.y, b.y, c.y), min_x, min_y, size);
    &&& orient(a, b, c) < 0
    &&& match scan_both(nodes, ear, min_z, max_z, b.prev_z_i, b.next_z_i, nodes.len()) {
        None => false,
        Some((down, up)) => !scan_down(nodes, ear, min_z, down, nodes.len()) && !scan_up(
            nodes,
            ear,
            max_z,
            up,
            nodes.len(),
        ),
    }
}

/// Whether the node `q` stands in the way of cutting the ear at `ear`.
pub fn z_in_the_way(nodes: &Vec<Node>, ear: usize, q: usize) -> (blocked: bool)
    requires
        links_ok(nodes@),
        1 <= ear < nodes.len(),
        1 <= q < nodes.len(),
    ensures
        blocked == z_blocks(nodes@, ear, q),
{
    let b: Node = nodes[ear];
    let n: Node = nodes[q];
    q != b.prev_i && q != b.next_i && in_the_way(
        &nodes[b.prev_i],
        &b,
        &nodes[b.next_i],
        &nodes[n.prev_i],
        &n,
        &nodes[n.next_i],
    )
}

/// Whether the node `ear` can be cut off, judged by the z-order list.
pub fn is_ear_hashed(nodes: &Vec<Node>, ear: usize, min_x: i32, min_y: i32, size: i64) -> (free:
    bool)
    requires
        links_ok(nodes@),
        1 <= ear < nodes.len(),
        size > 0,
    ensures
        free == ear_free_hashed(nodes@, ear, min_x, min_y, size),
{
    let b: Node = nodes[ear];
    let a: Node = nodes[b.prev_i];
    let c: Node = nodes[b.next_i];
    if area(&a, &b, &c) >= 0 {
        return false;
    }
    let min_z: i32 = z_order(min3(a.x, b.x, c.x), min3(a.y, b.y, c.y), min_x, min_y, size);
    let max_z: i32 = z_order(max3(a.x, b.x, c.x), max3(a.y, b.y, c.y), min_x, min_y, size);
    let mut down: Option<usize> = b.prev_z_i;
    let mut up: Option<usize> = b.next_z_i;
    let mut fuel: usize = nodes.len();
    let ghost both = scan_both(nodes@, ear, min_z, max_z, b.prev_z_i, b.next_z_i, nodes@.len());
    let ghost goal = ear_free_hashed(nodes@, ear, min_x, min_y, size);
    loop
        invariant_except_break
            scan_both(nodes@, ear, min_z, max_z, down, up, fuel as nat) == both,
        invariant
            goal == match both {
                None => false,
                Some((d, u)) => !scan_down(nodes@, ear, min_z, d, nodes@.len()) && !scan_up(
                    nodes@,
                    ear,
                    max_z,
                    u,
                    nodes@.len(),
                ),
            },
            goal == ear_free_hashed(nodes@, ear, min_x, min_y, size),
            links_ok(nodes@),
            1 <= ear < nodes.len(),
            link_in(down, nodes@.len()),
            link_in(up, nodes@.len()),
        ensures
            both == Some((down, up)),
        decreases fuel,
    {
        if fuel == 0 {
            break;
        }
        let p: usize = match down {
            Some(p) => p,
            None => {
                break;
            },
        };
        if nodes[p].z < min_z {
            break;
        }
        let n: usize = match up {
            Some(n) => n,
            None => {
                break;
            },
        };
        if nodes[n].z > max_z {
            break;
        }
        if z_in_the_way(nodes, ear, p) {
            return false;
        }
        down = nodes[p].prev_z_i;
        if z_in_the_way(nodes, ear, n) {
            return false;
        }
        up = nodes[n].next_z_i;
        fuel = fuel - 1;
    }
    let mut fuel: usize = nodes.len();
    let ghost below = scan_down(nodes@, ear, min_z, down, nodes@.len());
    loop
        invariant_except_break
            scan_down(nodes@, ear, min_z, down, fuel as nat) == below,
        invariant
            goal == (!below && !scan_up(nodes@, ear, max_z, up, nodes@.len())),
            goal == ear_free_hashed(nodes@, ear, min_x, min_y, size),
            links_ok(nodes@),
            1 <= ear < nodes.len(),
            link_in(down, nodes@.len()),
        ensures
            !below,
        decreases fuel,
    {
        if fuel == 0 {
            break;
        }
        let p: usize = match down {
            Some(p) => p,
            None => {
                break;
            },
        };
        if nodes[p].z < min_z {
            break;
        }
        if z_in_the_way(nodes, ear, p) {
            return false;
        }
        down = nodes[p].prev_z_i;
        fuel = fuel - 1;
    }
    let mut fuel: usize = nodes.len();
    let ghost above = scan_up(nodes@, ear, max_z, up, nodes@.len());
    loop
        invariant_except_break
            scan_up(nodes@, ear, max_z, up, fuel as nat) == above,
        invariant
            goal == !above,
            goal == ear_free_hashed(nodes@, ear, min_x, min_y, size),
            links_ok(nodes@),
            1 <= ear < nodes.len(),
            link_in(up, nodes@.len()),
        ensures
            !above,
        decreases fuel,
    {
        if fuel == 0 {
            break;
        }
        let n: usize = match up {
            Some(n) => n,
            None => {
                break;
            },
        };
        if nodes[n].z > max_z {
            break;
        }
        if z_in_the_way(nodes, ear, n) {
            return false;
        }
        up = nodes[n].next_z_i;
        fuel = fuel - 1;
    }
    true
}

} // verus!
