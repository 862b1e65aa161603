//! The node arena: every vertex of every ring lives in one growable vector and
//! is addressed by its position, which never changes once the node is pushed.

use vstd::prelude::*;

verus! {

/// One vertex of a ring, with its links to the neighbours in the ring and,
/// where the ring has been indexed, to the neighbours in z-order.
#[derive(Clone, Copy, Debug)]
pub struct Node {
    /// Position of the vertex's first coordinate in the coordinate buffer.
    pub i: usize,
    /// Z-order key of the vertex; zero until the ring is indexed.
    pub z: i32,
    /// First coordinate, copied from the buffer when the node is made.
    pub x: i32,
    /// Second coordinate, copied from the buffer when the node is made.
    pub y: i32,
    /// Previous node in the ring.
    pub prev_i: usize,
    /// Next node in the ring.
    pub next_i: usize,
    /// Previous node in z-order.
    pub prev_z_i: Option<usize>,
    /// Next node in z-order.
    pub next_z_i: Option<usize>,
    /// Whether the node is a hole that consists of a single point.
    pub steiner: bool,
}

/// The four links of a node, taken before the node is unlinked.
#[derive(Clone, Copy, Debug)]
pub struct LinkInfo {
    /// Previous node in the ring.
    pub prev_i: usize,
    /// Next node in the ring.
    pub next_i: usize,
    /// Previous node in z-order.
    pub prev_z_i: Option<usize>,
    /// Next node in z-order.
    pub next_z_i: Option<usize>,
}

impl Node {
    /// A node that is linked to nothing yet.
    pub open spec fn fresh(i: usize, x: i32, y: i32) -> Node {
        Node {
            i,
            z: 0,
            x,
            y,
            prev_i: 1,
            next_i: 1,
            prev_z_i: None,
            next_z_i: None,
            steiner: false,
        }
    }

    /// The links of the node as a value of their own.
    pub open spec fn links(self) -> LinkInfo {
        LinkInfo {
            prev_i: self.prev_i,
            next_i: self.next_i,
            prev_z_i: self.prev_z_i,
            next_z_i: self.next_z_i,
        }
    }

    /// A node for the vertex at position `i` of the buffer, on the point
    /// `(x, y)`, that is linked to nothing yet.
    pub fn new(i: usize, x: i32, y: i32) -> (n: Node)
        ensures
            n == Node::fresh(i, x, y),
    {
        Node {
            i,
            z: 0,
            x,
            y,
            prev_i: 1,
            next_i: 1,
            prev_z_i: None,
            next_z_i: None,
            steiner: false,
        }
    }

    /// The links of the node, to unlink it by.
    pub fn link_info(&self) -> (l: LinkInfo)
        ensures
            l == self.links(),
    {
        LinkInfo {
            prev_i: self.prev_i,
            next_i: self.next_i,
            prev_z_i: self.prev_z_i,
            next_z_i: self.next_z_i,
        }
    }
}

/// The node that every arena starts with; no ring ever links to it.
pub open spec fn dummy() -> Node {
    Node::fresh(0, i32::MAX, i32::MAX)
}

/// Whether an optional link stays inside an arena of `len` nodes.
pub open spec fn link_in(l: Option<usize>, len: nat) -> bool {
    l matches Some(j) ==> 1 <= j < len
}

/// Whether the four links of `n` point at nodes of an arena of `len` nodes,
/// and none of them at its first node.
pub open spec fn node_ok(n: Node, len: nat) -> bool {
    &&& 1 <= n.prev_i < len
    &&& 1 <= n.next_i < len
    &&& link_in(n.prev_z_i, len)
    &&& link_in(n.next_z_i, len)
}

/// Whether the four links `l` point at nodes of an arena of `len` nodes, and
/// none of them at its first node.
pub open spec fn info_ok(l: LinkInfo, len: nat) -> bool {
    &&& 1 <= l.prev_i < len
    &&& 1 <= l.next_i < len
    &&& link_in(l.prev_z_i, len)
    &&& link_in(l.next_z_i, len)
}

/// The arena's invariant: its first node is a dummy that belongs to no ring,
/// and every link of every other node points at a node behind the dummy.
pub open spec fn links_ok(nodes: Seq<Node>) -> bool {
    &&& nodes.len() >= 1
    &&& forall|k: int| 1 <= k < nodes.len() ==> node_ok(#[trigger] nodes[k], nodes.len())
}

/// Whether every node behind the dummy stands for a vertex whose first
/// coordinate lies below position `limit` of the buffer.
pub open spec fn vertices_below(nodes: Seq<Node>, limit: int) -> bool {
    forall|k: int| 1 <= k < nodes.len() ==> (#[trigger] nodes[k]).i < limit
}

/// Whether a step on the arena brought in no vertex from beyond the ones
/// that it found: whatever bounded the vertices before bounds them after.
pub open spec fn vertices_kept(before: Seq<Node>, after: Seq<Node>) -> bool {
    forall|limit: int| #[trigger] vertices_below(before, limit) ==> vertices_below(after, limit)
}

/// The arena after a node for the vertex at `i` was pushed and, where `last`
/// names a node, linked in behind it.
pub open spec fn inserted(nodes: Seq<Node>, i: usize, x: i32, y: i32, last: Option<usize>) -> Seq<
    Node,
> {
    let at = nodes.len() as usize;
    match last {
        Some(l) => {
            let after = nodes[l as int].next_i;
            let n1 = nodes.update(l as int, Node { next_i: at, ..nodes[l as int] });
            let n2 = n1.update(after as int, Node { prev_i: at, ..n1[after as int] });
            n2.push(Node { prev_i: l, next_i: after, ..Node::fresh(i, x, y) })
        },
        None => nodes.push(Node { prev_i: at, next_i: at, ..Node::fresh(i, x, y) }),
    }
}

/// The arena after the neighbours named by `l` were linked to each other, in
/// the ring and in z-order, past the node that `l` was taken from.
pub open spec fn unlinked(nodes: Seq<Node>, l: LinkInfo) -> Seq<Node> {
    let n1 = nodes.update(l.prev_i as int, Node { next_i: l.next_i, ..nodes[l.prev_i as int] });
    let n2 = match l.prev_z_i {
        Some(pz) => n1.update(pz as int, Node { next_z_i: l.next_z_i, ..n1[pz as int] }),
        None => n1,
    };
    let n3 = n2.update(l.next_i as int, Node { prev_i: l.prev_i, ..n2[l.next_i as int] });
    match l.next_z_i {
        Some(nz) => n3.update(nz as int, Node { prev_z_i: l.prev_z_i, ..n3[nz as int] }),
        None => n3,
    }
}

/// The arena after the nodes `a` and `b` were joined by a bridge: `a` now
/// leads to `b`, and two new nodes, copies of `a` and `b`, carry the way from
/// the old predecessor of `b` to the old successor of `a`.
pub open spec fn bridged(nodes: Seq<Node>, a: usize, b: usize) -> Seq<Node> {
    let a2 = nodes.len() as usize;
    let b2 = (nodes.len() + 1) as usize;
    let an = nodes[a as int].next_i;
    let n1 = nodes.update(a as int, Node { next_i: b, ..nodes[a as int] });
    let bp = n1[b as int].prev_i;
    let n2 = n1.update(b as int, Node { prev_i: a, ..n1[b as int] });
    let n3 = n2.update(an as int, Node { prev_i: a2, ..n2[an as int] });
    let n4 = n3.update(bp as int, Node { next_i: b2, ..n3[bp as int] });
    n4.push(
        Node { prev_i: b2, next_i: an, ..Node::fresh(nodes[a as int].i, nodes[a as int].x, nodes[a as int].y) },
    ).push(
        Node { next_i: a2, prev_i: bp, ..Node::fresh(nodes[b as int].i, nodes[b as int].x, nodes[b as int].y) },
    )
}

/// The position behind `k` in a ring of `n` nodes.
pub open spec fn after(k: int, n: int) -> int {
    if k + 1 < n {
        k + 1
    } else {
        0
    }
}

/// The position before `k` in a ring of `n` nodes.
pub open spec fn before(k: int, n: int) -> int {
    if k > 0 {
        k - 1
    } else {
        n - 1
    }
}

/// Whether the nodes `r`, in this order, form a ring: they are different
/// nodes behind the dummy, each is linked forwards to the one behind it and
/// backwards to the one before it, and the last is linked with the first.
pub open spec fn is_ring(nodes: Seq<Node>, r: Seq<usize>) -> bool {
    &&& r.len() >= 1
    &&& forall|k: int| 0 <= k < r.len() ==> 1 <= #[trigger] r[k] < nodes.len()
    &&& forall|j: int, k: int| 0 <= j < k < r.len() ==> r[j] != r[k]
    &&& forall|k: int| 0 <= k < r.len() ==> #[trigger] ring_link(nodes, r, k)
}

/// Whether the node at position `k` of `r` is linked forwards to the node
/// behind it and backwards to the node before it.
pub open spec fn ring_link(nodes: Seq<Node>, r: Seq<usize>, k: int) -> bool {
    &&& nodes[r[k] as int].next_i == r[after(k, r.len() as int)]
    &&& nodes[r[k] as int].prev_i == r[before(k, r.len() as int)]
}

/// A node that is pushed with no node to link it behind is a ring of its
/// own.
pub proof fn lemma_first_node_is_a_ring(nodes: Seq<Node>, i: usize, x: i32, y: i32)
    requires
        1 <= nodes.len() <= usize::MAX,
    ensures
        is_ring(inserted(nodes, i, x, y, None), seq![nodes.len() as usize]),
{
}

/// A node that is pushed behind the node at position `k` of a ring stands
/// behind it in the ring; the ring is one node longer and circular as
/// before.
pub proof fn lemma_insert_keeps_ring(
    nodes: Seq<Node>,
    r: Seq<usize>,
    k: int,
    i: usize,
    x: i32,
    y: i32,
)
    requires
        nodes.len() <= usize::MAX,
        is_ring(nodes, r),
        0 <= k < r.len(),
    ensures
        is_ring(inserted(nodes, i, x, y, Some(r[k])), r.insert(k + 1, nodes.len() as usize)),
{
    let at = nodes.len() as usize;
    let grown = inserted(nodes, i, x, y, Some(r[k]));
    let longer = r.insert(k + 1, at);
    let n = r.len() as int;
    let next_k = after(k, n);
    assert(ring_link(nodes, r, k));
    assert(ring_link(nodes, r, next_k));
    assert(grown.len() == nodes.len() + 1);
    assert forall|j: int| 0 <= j < longer.len() implies 1 <= #[trigger] longer[j] < grown.len() by {
        if j <= k {
            assert(longer[j] == r[j]);
        } else if j > k + 1 {
            assert(longer[j] == r[j - 1]);
        }
    }
    assert forall|a: int, b: int| 0 <= a < b < longer.len() implies longer[a] != longer[b] by {
        let ra = if a <= k {
            a
        } else {
            a - 1
        };
        let rb = if b <= k {
            b
        } else {
            b - 1
        };
        if a != k + 1 && b != k + 1 {
            assert(longer[a] == r[ra] && longer[b] == r[rb]);
        } else if a == k + 1 {
            assert(longer[b] == r[rb]);
        } else {
            assert(longer[a] == r[ra]);
        }
    }
    assert forall|j: int| 0 <= j < longer.len() implies #[trigger] ring_link(grown, longer, j) by {
        let m = longer.len() as int;
        if j == k + 1 {
            assert(longer[j] == at);
            assert(grown[at as int].prev_i == r[k]);
            assert(grown[at as int].next_i == r[next_k]);
            assert(longer[before(j, m)] == r[k]);
            if k + 1 < n {
                assert(longer[after(j, m)] == r[k + 1]);
            } else {
                assert(longer[after(j, m)] == r[0]);
            }
        } else {
            let rj = if j <= k {
                j
            } else {
                j - 1
            };
            assert(longer[j] == r[rj]);
            assert(ring_link(nodes, r, rj));
            let node = r[rj];
            assert(1 <= node < nodes.len());
            let before_j = before(j, m);
            let after_j = after(j, m);
            if rj == k {
                assert(grown[node as int].next_i == at);
                assert(longer[after_j] == at);
            } else {
                assert(r[rj] != r[k]);
                assert(grown[node as int].next_i == nodes[node as int].next_i);
                if j < k {
                    assert(longer[after_j] == r[after(rj, n)]);
                } else {
                    if after_j == 0 {
                        assert(longer[0] == r[0]);
                    } else {
                        assert(longer[after_j] == r[after_j - 1]);
                    }
                }
            }
            if rj == next_k {
                assert(grown[node as int].prev_i == at);
                assert(longer[before_j] == at);
            } else {
                assert(r[rj] != r[next_k]);
                assert(grown[node as int].prev_i == nodes[node as int].prev_i);
                if j > k + 1 {
                    assert(longer[before_j] == r[before_j - 1]);
                } else {
                    if before_j == m - 1 {
                        if k + 1 == m - 1 {
                        } else {
                            assert(longer[m - 1] == r[n - 1]);
                        }
                    } else {
                        assert(longer[before_j] == r[before_j]);
                    }
                }
            }
        }
    }
}

/// When the node at position `k` of a ring of two or more nodes is
/// unlinked, the other nodes form a ring, in the order in which they stood.
pub proof fn lemma_remove_keeps_ring(nodes: Seq<Node>, r: Seq<usize>, k: int)
    requires
        links_ok(nodes),
        is_ring(nodes, r),
        r.len() >= 2,
        0 <= k < r.len(),
    ensures
        is_ring(unlinked(nodes, nodes[r[k] as int].links()), r.remove(k)),
{
    let gone = nodes[r[k] as int];
    let left = unlinked(nodes, gone.links());
    let shorter = r.remove(k);
    let n = r.len() as int;
    let m = n - 1;
    let pk = before(k, n);
    let nk = after(k, n);
    assert(ring_link(nodes, r, k));
    assert(node_ok(gone, nodes.len()));
    assert(left.len() == nodes.len());
    assert forall|j: int| 0 <= j < nodes.len() implies (#[trigger] left[j]).next_i == (if j
        == gone.prev_i {
        gone.next_i
    } else {
        nodes[j].next_i
    }) && left[j].prev_i == (if j == gone.next_i {
        gone.prev_i
    } else {
        nodes[j].prev_i
    }) by {}
    assert forall|j: int| 0 <= j < shorter.len() implies 1 <= #[trigger] shorter[j] < left.len() by {
        if j < k {
            assert(shorter[j] == r[j]);
        } else {
            assert(shorter[j] == r[j + 1]);
        }
    }
    assert forall|a: int, b: int| 0 <= a < b < shorter.len() implies shorter[a] != shorter[b] by {
        let ra = if a < k {
            a
        } else {
            a + 1
        };
        let rb = if b < k {
            b
        } else {
            b + 1
        };
        assert(shorter[a] == r[ra] && shorter[b] == r[rb]);
    }
    assert forall|j: int| 0 <= j < shorter.len() implies #[trigger] ring_link(left, shorter, j) by {
        let rj = if j < k {
            j
        } else {
            j + 1
        };
        assert(shorter[j] == r[rj]);
        assert(ring_link(nodes, r, rj));
        let node = r[rj] as int;
        assert(1 <= node < nodes.len());
        let after_j = after(j, m);
        let before_j = before(j, m);
        let ra = if after_j < k {
            after_j
        } else {
            after_j + 1
        };
        let rb = if before_j < k {
            before_j
        } else {
            before_j + 1
        };
        assert(shorter[after_j] == r[ra]);
        assert(shorter[before_j] == r[rb]);
        if rj == pk {
            assert(left[node].next_i == r[nk]);
        } else {
            assert(r[rj] != r[pk]);
            assert(left[node].next_i == nodes[node].next_i);
        }
        if rj == nk {
            assert(left[node].prev_i == r[pk]);
        } else {
            assert(r[rj] != r[nk]);
            assert(left[node].prev_i == nodes[node].prev_i);
        }
    }
}

/// Whether a step on the arena left every node standing for the vertex
/// that it stood for.
pub open spec fn same_vertices(before: Seq<Node>, after: Seq<Node>) -> bool {
    &&& after.len() >= before.len()
    &&& forall|v: int| 0 <= v < before.len() ==> (#[trigger] after[v]).i == before[v].i
}

/// Unlinking by links that point into the arena keeps every link in the
/// arena, and every node standing for its vertex.
pub proof fn lemma_unlinked_ok(nodes: Seq<Node>, l: LinkInfo)
    requires
        links_ok(nodes),
        info_ok(l, nodes.len()),
    ensures
        links_ok(unlinked(nodes, l)),
        unlinked(nodes, l).len() == nodes.len(),
        same_vertices(nodes, unlinked(nodes, l)),
{
}

/// Unlinking moves no node, changes no mark of a single-point hole, and
/// changes two ring links: the node before is linked forwards to the node
/// behind, and the node behind backwards to the node before.
pub proof fn lemma_unlinked_links(nodes: Seq<Node>, l: LinkInfo)
    requires
        links_ok(nodes),
        info_ok(l, nodes.len()),
    ensures
        forall|v: int|
            0 <= v < nodes.len() ==> {
                let n = #[trigger] unlinked(nodes, l)[v];
                &&& n.x == nodes[v].x
                &&& n.y == nodes[v].y
                &&& n.i == nodes[v].i
                &&& n.steiner == nodes[v].steiner
                &&& n.prev_i == (if v == l.next_i {
                    l.prev_i
                } else {
                    nodes[v].prev_i
                })
                &&& n.next_i == (if v == l.prev_i {
                    l.next_i
                } else {
                    nodes[v].next_i
                })
            },
{
}

/// Whether a step on the arena left the ring links of every node alone that
/// is no node of `r`.
pub open spec fn outside_kept(before: Seq<Node>, after: Seq<Node>, r: Seq<usize>) -> bool {
    &&& after.len() >= before.len()
    &&& forall|v: int|
        0 <= v < before.len() && !r.contains(v as usize) ==> (#[trigger] after[v]).prev_i
            == before[v].prev_i && after[v].next_i == before[v].next_i
}

/// A ring stays a ring through a step that leaves the ring links of its
/// nodes alone.
pub proof fn lemma_other_ring_kept(before: Seq<Node>, after: Seq<Node>, r: Seq<usize>, other: Seq<usize>)
    requires
        is_ring(before, other),
        outside_kept(before, after, r),
        forall|j: int, k: int| 0 <= j < other.len() && 0 <= k < r.len() ==> other[j] != r[k],
    ensures
        is_ring(after, other),
{
    assert forall|k: int| 0 <= k < other.len() implies #[trigger] ring_link(after, other, k) by {
        assert(ring_link(before, other, k));
        assert(1 <= other[k] < before.len());
        assert(!r.contains(other[k])) by {
            if r.contains(other[k]) {
                let i = choose|i: int| 0 <= i < r.len() && r[i] == other[k];
                assert(other[k] != r[i]);
            }
        }
        assert(after[other[k] as int].prev_i == before[other[k] as int].prev_i);
    }
}

/// Unlinking a node of a ring leaves the ring links of every node alone that
/// is no node of the ring.
pub proof fn lemma_unlinked_outside(nodes: Seq<Node>, r: Seq<usize>, k: int)
    requires
        links_ok(nodes),
        is_ring(nodes, r),
        0 <= k < r.len(),
    ensures
        outside_kept(nodes, unlinked(nodes, nodes[r[k] as int].links()), r),
{
    let gone = nodes[r[k] as int];
    let left = unlinked(nodes, gone.links());
    let n = r.len() as int;
    assert(ring_link(nodes, r, k));
    assert(1 <= r[k] < nodes.len());
    assert(node_ok(gone, nodes.len()));
    assert(left.len() == nodes.len());
    assert(r.contains(r[after(k, n)]));
    assert(r.contains(r[before(k, n)]));
    assert forall|v: int| 0 <= v < nodes.len() && !r.contains(v as usize) implies (#[trigger] left[v]).prev_i
        == nodes[v].prev_i && left[v].next_i == nodes[v].next_i by {
        assert(v != gone.prev_i && v != gone.next_i);
    }
}

/// Two steps that each leave the ring links outside a ring alone, the
/// second outside a ring of nodes of the first, leave them alone together.
pub proof fn lemma_outside_chain(
    first: Seq<Node>,
    second: Seq<Node>,
    third: Seq<Node>,
    r: Seq<usize>,
    t: Seq<usize>,
)
    requires
        outside_kept(first, second, r),
        outside_kept(second, third, t),
        forall|k: int| 0 <= k < t.len() ==> r.contains(#[trigger] t[k]) || t[k] >= first.len(),
    ensures
        outside_kept(first, third, r),
{
    assert forall|v: int| 0 <= v < first.len() && !r.contains(v as usize) implies (#[trigger] third[v]).prev_i
        == first[v].prev_i && third[v].next_i == first[v].next_i by {
        assert(second[v].prev_i == first[v].prev_i);
        assert(!t.contains(v as usize)) by {
            if t.contains(v as usize) {
                let i = choose|i: int| 0 <= i < t.len() && t[i] == v as usize;
                assert(r.contains(t[i]) || t[i] >= first.len());
            }
        }
        assert(third[v].prev_i == second[v].prev_i);
    }
}

/// A ring has fewer nodes than the arena, whose first node is in no ring.
pub proof fn lemma_ring_fits(nodes: Seq<Node>, r: Seq<usize>)
    requires
        is_ring(nodes, r),
    ensures
        r.len() < nodes.len(),
{
    let numbers = Seq::new(r.len(), |k: int| r[k] as int);
    assert(numbers.no_duplicates()) by {
        assert forall|a: int, b: int|
            0 <= a < numbers.len() && 0 <= b < numbers.len() && a != b implies numbers[a]
            != numbers[b] by {
            if a < b {
                assert(r[a] != r[b]);
            } else {
                assert(r[b] != r[a]);
            }
        }
    }
    numbers.unique_seq_to_set();
    assert(1 <= r[0] < nodes.len());
    let range = vstd::set_lib::set_int_range(1, nodes.len() as int);
    vstd::set_lib::lemma_int_range(1, nodes.len() as int);
    assert(numbers.to_set().subset_of(range)) by {
        assert forall|v: int| numbers.to_set().contains(v) implies range.contains(v) by {
            let k = choose|k: int| 0 <= k < numbers.len() && numbers[k] == v;
            assert(1 <= r[k] < nodes.len());
        }
    }
    vstd::set_lib::lemma_len_subset(numbers.to_set(), range);
}

/// The nodes of a ring, named from position `s` on, are the same ring.
pub open spec fn turned(r: Seq<usize>, s: int) -> Seq<usize> {
    r.subrange(s, r.len() as int) + r.subrange(0, s)
}

/// A ring may be named from any of its nodes on.
pub proof fn lemma_ring_turned(nodes: Seq<Node>, r: Seq<usize>, s: int)
    requires
        is_ring(nodes, r),
        0 <= s < r.len(),
    ensures
        is_ring(nodes, turned(r, s)),
        turned(r, s).len() == r.len(),
        turned(r, s)[0] == r[s],
{
    let n = r.len() as int;
    let t = turned(r, s);
    assert forall|j: int| 0 <= j < n implies t[j] == r[if j + s < n {
        j + s
    } else {
        j + s - n
    }] by {}
    assert forall|j: int| 0 <= j < t.len() implies 1 <= #[trigger] t[j] < nodes.len() by {
        let rj = if j + s < n {
            j + s
        } else {
            j + s - n
        };
        assert(t[j] == r[rj]);
    }
    assert forall|a: int, b: int| 0 <= a < b < t.len() implies t[a] != t[b] by {
        let ra = if a + s < n {
            a + s
        } else {
            a + s - n
        };
        let rb = if b + s < n {
            b + s
        } else {
            b + s - n
        };
        assert(t[a] == r[ra] && t[b] == r[rb]);
        if ra < rb {
            assert(r[ra] != r[rb]);
        } else {
            assert(r[rb] != r[ra]);
        }
    }
    assert forall|j: int| 0 <= j < t.len() implies #[trigger] ring_link(nodes, t, j) by {
        let rj = if j + s < n {
            j + s
        } else {
            j + s - n
        };
        assert(t[j] == r[rj]);
        assert(ring_link(nodes, r, rj));
        let aj = after(j, n);
        let bj = before(j, n);
        assert(t[aj] == r[if aj + s < n {
            aj + s
        } else {
            aj + s - n
        }]);
        assert(t[bj] == r[if bj + s < n {
            bj + s
        } else {
            bj + s - n
        }]);
    }
}

/// What a bridge from `a` to `b` does to the ring links: the links of the
/// two new nodes, and of every other node.
pub proof fn lemma_bridged_links(nodes: Seq<Node>, a: usize, b: usize)
    requires
        links_ok(nodes),
        nodes.len() + 2 <= usize::MAX,
        1 <= a < nodes.len(),
        1 <= b < nodes.len(),
        a != b,
    ensures
        ({
            let joined = bridged(nodes, a, b);
            let a2 = nodes.len() as int;
            let b2 = nodes.len() as int + 1;
            let an = nodes[a as int].next_i;
            let bp = nodes[b as int].prev_i;
            &&& joined.len() == nodes.len() + 2
            &&& same_vertices(nodes, joined)
            &&& joined[a2].i == nodes[a as int].i
            &&& joined[b2].i == nodes[b as int].i
            &&& joined[a2].next_i == an
            &&& joined[a2].prev_i == b2
            &&& joined[b2].next_i == a2
            &&& joined[b2].prev_i == bp
            &&& forall|j: int|
                0 <= j < nodes.len() ==> (#[trigger] joined[j]).next_i == (if j == bp {
                    b2 as usize
                } else if j == a {
                    b
                } else {
                    nodes[j].next_i
                }) && joined[j].prev_i == (if j == an {
                    a2 as usize
                } else if j == b {
                    a
                } else {
                    nodes[j].prev_i
                })
        }),
{
    assert(node_ok(nodes[a as int], nodes.len()));
    assert(node_ok(nodes[b as int], nodes.len()));
}

/// A bridge keeps every link in the arena and brings in no vertex from
/// beyond the ones that it finds.
pub proof fn lemma_bridged_keeps(nodes: Seq<Node>, a: usize, b: usize)
    requires
        links_ok(nodes),
        nodes.len() + 2 <= usize::MAX,
        1 <= a < nodes.len(),
        1 <= b < nodes.len(),
    ensures
        links_ok(bridged(nodes, a, b)),
        bridged(nodes, a, b).len() == nodes.len() + 2,
        vertices_kept(nodes, bridged(nodes, a, b)),
{
    let joined = bridged(nodes, a, b);
    assert(node_ok(nodes[a as int], nodes.len()));
    assert(node_ok(nodes[b as int], nodes.len()));
    assert(joined.len() == nodes.len() + 2);
    assert forall|k: int| 1 <= k < joined.len() implies node_ok(#[trigger] joined[k], joined.len()) by {
        if k < nodes.len() {
            assert(node_ok(nodes[k], nodes.len()));
        }
    }
    assert forall|limit: int| #[trigger] vertices_below(nodes, limit) implies vertices_below(
        joined,
        limit,
    ) by {
        assert forall|k: int| 1 <= k < joined.len() implies (#[trigger] joined[k]).i < limit by {
            if k < nodes.len() {
                assert(nodes[k].i < limit);
            } else {
                assert(nodes[a as int].i < limit);
                assert(nodes[b as int].i < limit);
            }
        }
    }
}

/// A bridge keeps every link in the arena, and leaves the ring links alone
/// of every node that is no node of a ring that holds the two nodes, their
/// successor and their predecessor.
pub proof fn lemma_bridged_ok(nodes: Seq<Node>, a: usize, b: usize, r: Seq<usize>)
    requires
        links_ok(nodes),
        nodes.len() + 2 <= usize::MAX,
        1 <= a < nodes.len(),
        1 <= b < nodes.len(),
        a != b,
        r.contains(a),
        r.contains(b),
        r.contains(nodes[a as int].next_i),
        r.contains(nodes[b as int].prev_i),
    ensures
        links_ok(bridged(nodes, a, b)),
        bridged(nodes, a, b).len() == nodes.len() + 2,
        outside_kept(nodes, bridged(nodes, a, b), r),
{
    lemma_bridged_links(nodes, a, b);
    let joined = bridged(nodes, a, b);
    assert(node_ok(nodes[a as int], nodes.len()));
    assert(node_ok(nodes[b as int], nodes.len()));
    assert forall|k: int| 1 <= k < joined.len() implies node_ok(#[trigger] joined[k], joined.len()) by {
        if k < nodes.len() {
            assert(node_ok(nodes[k], nodes.len()));
            assert(joined[k].prev_z_i == nodes[k].prev_z_i);
            assert(joined[k].next_z_i == nodes[k].next_z_i);
        }
    }
}

/// A bridge between two nodes of one ring that are no neighbours cuts the
/// ring in two: one ring runs from `a` over the bridge to `b` and on as
/// before, the other from the copy of `a` through the nodes between `a` and
/// `b` to the copy of `b`. The ring is named from `a` on, and `b` stands at
/// position `k`.
pub proof fn lemma_bridge_splits_ring(nodes: Seq<Node>, r: Seq<usize>, k: int)
    requires
        links_ok(nodes),
        nodes.len() + 2 <= usize::MAX,
        is_ring(nodes, r),
        2 <= k < r.len(),
    ensures
        is_ring(bridged(nodes, r[0], r[k]), seq![r[0]] + r.subrange(k, r.len() as int)),
        is_ring(
            bridged(nodes, r[0], r[k]),
            seq![nodes.len() as usize] + r.subrange(1, k) + seq![(nodes.len() + 1) as usize],
        ),
{
    let n = r.len() as int;
    let a = r[0];
    let b = r[k];
    let a2 = nodes.len() as usize;
    let b2 = (nodes.len() + 1) as usize;
    let joined = bridged(nodes, a, b);
    assert(1 <= a < nodes.len() && 1 <= b < nodes.len());
    assert(r[0] != r[k]);
    assert(r[0] != r[k - 1]);
    assert(r[1] != r[k]);
    lemma_bridged_links(nodes, a, b);
    assert(ring_link(nodes, r, 0));
    assert(ring_link(nodes, r, k));
    let an = r[1];
    let bp = r[k - 1];
    let first = seq![a] + r.subrange(k, n);
    let second = seq![a2] + r.subrange(1, k) + seq![b2];
    assert forall|j: int| 0 <= j < first.len() implies first[j] == (if j == 0 {
        a
    } else {
        r[k + j - 1]
    }) by {}
    assert forall|j: int| 0 <= j < second.len() implies second[j] == (if j == 0 {
        a2
    } else if j == k {
        b2
    } else {
        r[j]
    }) by {}
    assert forall|j: int| 0 <= j < first.len() implies 1 <= #[trigger] first[j] < joined.len() by {
        if j > 0 {
            assert(1 <= r[k + j - 1] < nodes.len());
        }
    }
    assert forall|j: int| 0 <= j < second.len() implies 1 <= #[trigger] second[j] < joined.len() by {
        if 0 < j < k {
            assert(1 <= r[j] < nodes.len());
        }
    }
    assert forall|i: int, j: int| 0 <= i < j < first.len() implies first[i] != first[j] by {
        if i == 0 {
            assert(r[0] != r[k + j - 1]);
        } else {
            assert(r[k + i - 1] != r[k + j - 1]);
        }
    }
    assert forall|i: int, j: int| 0 <= i < j < second.len() implies second[i] != second[j] by {
        if 0 < i && j < k {
            assert(r[i] != r[j]);
        } else if 0 < i {
            assert(1 <= r[i] < nodes.len());
        } else if j < k {
            assert(1 <= r[j] < nodes.len());
        }
    }
    assert forall|j: int| 0 <= j < first.len() implies #[trigger] ring_link(joined, first, j) by {
        let m = first.len() as int;
        if j == 0 {
            assert(first[after(0, m)] == r[k]);
            assert(first[before(0, m)] == r[n - 1]);
            assert(r[0] != r[1]);
            if k - 1 != 0 {
            }
        } else {
            let rj = k + j - 1;
            assert(ring_link(nodes, r, rj));
            assert(1 <= r[rj] < nodes.len());
            assert(r[rj] != r[k - 1]);
            assert(r[rj] != r[0]);
            assert(r[rj] != r[1]);
            if j + 1 < m {
                assert(first[after(j, m)] == r[rj + 1]);
            } else {
                assert(first[after(j, m)] == r[0]);
            }
            if j == 1 {
                assert(first[before(j, m)] == r[0]);
            } else {
                assert(first[before(j, m)] == r[rj - 1]);
                assert(r[rj] != r[k]);
            }
        }
    }
    assert forall|j: int| 0 <= j < second.len() implies #[trigger] ring_link(joined, second, j) by {
        let m = second.len() as int;
        assert(m == k + 1);
        if j == 0 {
            assert(second[after(0, m)] == r[1]);
            assert(second[before(0, m)] == b2);
        } else if j == k {
            assert(second[after(j, m)] == a2);
            assert(second[before(j, m)] == r[k - 1]);
        } else {
            assert(ring_link(nodes, r, j));
            assert(1 <= r[j] < nodes.len());
            assert(r[0] != r[j]);
            assert(r[j] != r[k]);
            if j + 1 < k {
                assert(second[after(j, m)] == r[j + 1]);
                assert(r[j] != r[k - 1]);
            } else {
                assert(second[after(j, m)] == b2);
            }
            if j > 1 {
                assert(second[before(j, m)] == r[j - 1]);
                assert(r[1] != r[j]);
            } else {
                assert(second[before(j, m)] == a2);
            }
        }
    }
}

/// A bridge from a node of one ring to a node of another makes one ring of
/// the two: from `a` over the bridge through the second ring, over the two
/// copies and back through the first ring. Both rings are named from the
/// ends of the bridge on.
pub proof fn lemma_bridge_joins_rings(nodes: Seq<Node>, r: Seq<usize>, h: Seq<usize>)
    requires
        links_ok(nodes),
        nodes.len() + 2 <= usize::MAX,
        is_ring(nodes, r),
        is_ring(nodes, h),
        forall|i: int, j: int| 0 <= i < r.len() && 0 <= j < h.len() ==> r[i] != h[j],
    ensures
        is_ring(
            bridged(nodes, r[0], h[0]),
            seq![r[0]] + h + seq![(nodes.len() + 1) as usize, nodes.len() as usize] + r.subrange(
                1,
                r.len() as int,
            ),
        ),
{
    let n = r.len() as int;
    let m = h.len() as int;
    let a = r[0];
    let b = h[0];
    let a2 = nodes.len() as usize;
    let b2 = (nodes.len() + 1) as usize;
    let joined = bridged(nodes, a, b);
    assert(1 <= a < nodes.len() && 1 <= b < nodes.len());
    assert(r[0] != h[0]);
    lemma_bridged_links(nodes, a, b);
    assert(ring_link(nodes, r, 0));
    assert(ring_link(nodes, h, 0));
    let an = r[after(0, n)];
    let bp = h[before(0, m)];
    let whole = seq![a] + h + seq![b2, a2] + r.subrange(1, n);
    let total = n + m + 2;
    assert(whole.len() == total);
    assert forall|j: int| 0 <= j < total implies whole[j] == (if j == 0 {
        a
    } else if j <= m {
        h[j - 1]
    } else if j == m + 1 {
        b2
    } else if j == m + 2 {
        a2
    } else {
        r[j - m - 2]
    }) by {}
    assert forall|j: int| 0 <= j < total implies 1 <= #[trigger] whole[j] < joined.len() by {
        if 0 < j <= m {
            assert(1 <= h[j - 1] < nodes.len());
        } else if j > m + 2 {
            assert(1 <= r[j - m - 2] < nodes.len());
        }
    }
    assert forall|i: int, j: int| 0 <= i < j < total implies whole[i] != whole[j] by {
        if j <= m {
            if i == 0 {
                assert(r[0] != h[j - 1]);
            } else {
                assert(h[i - 1] != h[j - 1]);
            }
        } else if j <= m + 2 {
            if 0 < i <= m {
                assert(1 <= h[i - 1] < nodes.len());
            }
        } else {
            assert(1 <= r[j - m - 2] < nodes.len());
            if i == 0 {
                assert(r[0] != r[j - m - 2]);
            } else if i <= m {
                assert(r[j - m - 2] != h[i - 1]);
            } else if i > m + 2 {
                assert(r[i - m - 2] != r[j - m - 2]);
            }
        }
    }
    assert forall|j: int| 0 <= j < total implies #[trigger] ring_link(joined, whole, j) by {
        if j == 0 {
            assert(whole[after(0, total)] == h[0]);
            if n == 1 {
                assert(whole[before(0, total)] == a2);
            } else {
                assert(whole[before(0, total)] == r[n - 1]);
                assert(r[0] != r[1]);
            }
            assert(r[0] != h[before(0, m)]);
        } else if j <= m {
            let hj = j - 1;
            assert(ring_link(nodes, h, hj));
            assert(1 <= h[hj] < nodes.len());
            assert(r[0] != h[hj]);
            assert(r[after(0, n)] != h[hj]);
            if hj + 1 < m {
                assert(whole[after(j, total)] == h[hj + 1]);
                assert(h[hj] != h[m - 1]);
            } else {
                assert(whole[after(j, total)] == b2);
            }
            if hj > 0 {
                assert(whole[before(j, total)] == h[hj - 1]);
                assert(h[0] != h[hj]);
            } else {
                assert(whole[before(j, total)] == a);
            }
        } else if j == m + 1 {
            assert(whole[after(j, total)] == a2);
            assert(whole[before(j, total)] == h[m - 1]);
        } else if j == m + 2 {
            assert(whole[before(j, total)] == b2);
            if n == 1 {
                assert(whole[after(j, total)] == a);
            } else {
                assert(whole[after(j, total)] == r[1]);
            }
        } else {
            let rj = j - m - 2;
            assert(ring_link(nodes, r, rj));
            assert(1 <= r[rj] < nodes.len());
            assert(r[0] != r[rj]);
            assert(r[rj] != h[0]);
            assert(r[rj] != h[before(0, m)]);
            if rj + 1 < n {
                assert(whole[after(j, total)] == r[rj + 1]);
            } else {
                assert(whole[after(j, total)] == a);
            }
            if rj > 1 {
                assert(whole[before(j, total)] == r[rj - 1]);
                assert(r[1] != r[rj]);
            } else {
                assert(whole[before(j, total)] == a2);
            }
        }
    }
}

/// A ring that is named from another of its nodes on has the same nodes.
pub proof fn lemma_turned_same_nodes(r: Seq<usize>, s: int)
    requires
        0 <= s < r.len(),
    ensures
        forall|k: int| 0 <= k < r.len() ==> r.contains(#[trigger] turned(r, s)[k]),
        forall|v: usize| turned(r, s).contains(v) ==> r.contains(v),
        forall|v: usize| r.contains(v) ==> turned(r, s).contains(v),
{
    let n = r.len() as int;
    let t = turned(r, s);
    assert forall|k: int| 0 <= k < n implies t[k] == r[if k + s < n {
        k + s
    } else {
        k + s - n
    }] by {}
    assert forall|k: int| 0 <= k < n implies r.contains(#[trigger] t[k]) by {
        assert(t[k] == r[if k + s < n {
            k + s
        } else {
            k + s - n
        }]);
    }
    assert forall|v: usize| t.contains(v) implies r.contains(v) by {
        let k = choose|k: int| 0 <= k < t.len() && t[k] == v;
        assert(r.contains(t[k]));
    }
    assert forall|v: usize| r.contains(v) implies t.contains(v) by {
        let k = choose|k: int| 0 <= k < r.len() && r[k] == v;
        let j = if k >= s {
            k - s
        } else {
            k - s + n
        };
        assert(t[j] == r[k]);
    }
}

/// Pushes a node for the vertex at `i` and links it in behind `last`, or
/// makes it a ring of its own where there is no `last`.
pub fn insert_node(nodes: &mut Vec<Node>, i: usize, x: i32, y: i32, last: Option<usize>) -> (at:
    usize)
    requires
        links_ok(old(nodes)@),
        last matches Some(l) ==> 1 <= l < old(nodes).len(),
    ensures
        at == old(nodes).len(),
        final(nodes)@ == inserted(old(nodes)@, i, x, y, last),
        final(nodes).len() == old(nodes).len() + 1,
        links_ok(final(nodes)@),
        forall|limit: int|
            #[trigger] vertices_below(old(nodes)@, limit) && i < limit ==> vertices_below(
                final(nodes)@,
                limit,
            ),
{
    let mut p = Node::new(i, x, y);
    let at: usize = nodes.len();
    match last {
        Some(l) => {
            let after: usize = nodes[l].next_i;
            p.next_i = after;
            nodes[l].next_i = at;
            p.prev_i = l;
            nodes[after].prev_i = at;
        },
        None => {
            p.prev_i = at;
            p.next_i = at;
        },
    }
    nodes.push(p);
    at
}

/// Links the neighbours named by `l` to each other, which takes the node
/// that `l` was read from out of its ring and out of the z-order list. The
/// node itself keeps its links. Returns the two ring neighbours.
#[verifier::rlimit(50)]
pub fn remove_node(nodes: &mut Vec<Node>, l: LinkInfo) -> (r: (usize, usize))
    requires
        links_ok(old(nodes)@),
        info_ok(l, old(nodes)@.len()),
    ensures
        r == (l.prev_i, l.next_i),
        final(nodes)@ == unlinked(old(nodes)@, l),
        final(nodes).len() == old(nodes).len(),
        links_ok(final(nodes)@),
        vertices_kept(old(nodes)@, final(nodes)@),
{
    nodes[l.prev_i].next_i = l.next_i;
    if let Some(pz) = l.prev_z_i {
        nodes[pz].next_z_i = l.next_z_i;
    }
    nodes[l.next_i].prev_i = l.prev_i;
    if let Some(nz) = l.next_z_i {
        nodes[nz].prev_z_i = l.prev_z_i;
    }
    (l.prev_i, l.next_i)
}

/// Joins the nodes `a` and `b` by a bridge. Where both lie on one ring the
/// ring falls into two; where they lie on two rings the rings become one.
/// Returns the copy of `b`.
pub fn split_polygon(nodes: &mut Vec<Node>, a: usize, b: usize) -> (b2: usize)
    requires
        links_ok(old(nodes)@),
        1 <= a < old(nodes).len(),
        1 <= b < old(nodes).len(),
    ensures
        b2 == old(nodes).len() + 1,
        final(nodes)@ == bridged(old(nodes)@, a, b),
        final(nodes).len() == old(nodes).len() + 2,
        links_ok(final(nodes)@),
        vertices_kept(old(nodes)@, final(nodes)@),
{
    let a2: usize = nodes.len();
    let na: Node = nodes[a];
    let mut c = Node::new(na.i, na.x, na.y);
    let an: usize = na.next_i;
    nodes[a].next_i = b;
    c.next_i = an;
    let nb: Node = nodes[b];
    let mut d = Node::new(nb.i, nb.x, nb.y);
    let bp: usize = nb.prev_i;
    nodes[b].prev_i = a;
    d.next_i = a2;
    d.prev_i = bp;
    nodes[an].prev_i = a2;
    nodes.push(c);
    let b2: usize = nodes.len();
    nodes[a2].prev_i = b2;
    nodes[bp].next_i = b2;
    nodes.push(d);
    proof {
        let before = old(nodes)@;
        assert(node_ok(before[a as int], before.len()));
        assert(node_ok(before[b as int], before.len()));
        assert(nodes.len() == before.len() + 2);
        assert(nodes@ =~= bridged(before, a, b));
        lemma_bridged_keeps(before, a, b);
    }
    b2
}

} // verus!
