//! What the sort of the z-order list does to a list that is in order: the
//! list comes out with the same nodes, by ascending key.

use vstd::prelude::*;
use crate::arena::{is_ring, lemma_ring_fits, ring_link, Node};
use crate::zorder::{
    doubled, indexed, keyed, keyed_from, merged, next_from_first, opened, pass, run_end, scan_both,
    scan_down, scan_up, sorted, sorted_from, z_blocks, z_key, Merge,
};

verus! {

/// Whether the node at position `k` of `s` is linked, in z-order, to the
/// node behind it, and the last node to `end`.
pub open spec fn z_link(nodes: Seq<Node>, s: Seq<usize>, k: int, end: Option<usize>) -> bool {
    nodes[s[k] as int].next_z_i == (if k + 1 < s.len() {
        Some(s[k + 1])
    } else {
        end
    })
}

/// Whether the nodes of `s` are different nodes of the arena.
pub open spec fn distinct_nodes(nodes: Seq<Node>, s: Seq<usize>) -> bool {
    &&& forall|k: int| 0 <= k < s.len() ==> 1 <= #[trigger] s[k] < nodes.len()
    &&& forall|j: int, k: int| 0 <= j < k < s.len() ==> s[j] != s[k]
}

/// Whether `s` is the chain of nodes that the z-order links lead through
/// from `first` until they lead to `end`.
pub open spec fn z_chain(nodes: Seq<Node>, first: Option<usize>, s: Seq<usize>, end: Option<usize>) -> bool {
    &&& distinct_nodes(nodes, s)
    &&& first == (if s.len() > 0 {
        Some(s[0])
    } else {
        end
    })
    &&& forall|k: int| 0 <= k < s.len() ==> #[trigger] z_link(nodes, s, k, end)
}

/// Whether no node of `s` is a node of `t`.
pub open spec fn apart(s: Seq<usize>, t: Seq<usize>) -> bool {
    forall|j: int, k: int| 0 <= j < s.len() && 0 <= k < t.len() ==> s[j] != t[k]
}

/// Whether the nodes of `s` stand by ascending key.
pub open spec fn by_key(nodes: Seq<Node>, s: Seq<usize>) -> bool {
    forall|j: int, k: int| 0 <= j < k < s.len() ==> nodes[s[j] as int].z <= nodes[s[k] as int].z
}

/// Two runs of nodes merged by key; of two nodes with the same key the one
/// of the first run goes first.
pub open spec fn merge_by_key(nodes: Seq<Node>, p: Seq<usize>, q: Seq<usize>) -> Seq<usize>
    decreases p.len() + q.len(),
{
    if p.len() == 0 {
        q
    } else if q.len() == 0 {
        p
    } else if nodes[p[0] as int].z <= nodes[q[0] as int].z {
        seq![p[0]] + merge_by_key(nodes, p.drop_first(), q)
    } else {
        seq![q[0]] + merge_by_key(nodes, p, q.drop_first())
    }
}

/// Whether the node `u` stands before the node `v` in the list.
pub open spec fn in_this_order(l: Seq<usize>, u: usize, v: usize) -> bool {
    exists|a: int, b: int| 0 <= a < b < l.len() && l[a] == u && l[b] == v
}

/// Whether the nodes at the positions `i` and `j` of `l2`, if they have the
/// same key, stood in this order in `l`.
pub open spec fn tie_kept(nodes: Seq<Node>, l: Seq<usize>, l2: Seq<usize>, i: int, j: int) -> bool {
    nodes[l2[i] as int].z == nodes[l2[j] as int].z ==> in_this_order(l, l2[i], l2[j])
}

/// Whether nodes with the same key stand in `l2` in the order in which
/// they stood in `l`.
pub open spec fn ties_kept(nodes: Seq<Node>, l: Seq<usize>, l2: Seq<usize>) -> bool {
    forall|i: int, j: int| 0 <= i < j < l2.len() ==> #[trigger] tie_kept(nodes, l, l2, i, j)
}

/// A list keeps its own order.
pub proof fn lemma_ties_of_itself(nodes: Seq<Node>, l: Seq<usize>)
    ensures
        ties_kept(nodes, l, l),
{
    assert forall|i: int, j: int| 0 <= i < j < l.len() implies #[trigger] tie_kept(
        nodes,
        l,
        l,
        i,
        j,
    ) by {
        assert(0 <= i < j < l.len() && l[i] == l[i] && l[j] == l[j]);
    }
}

/// A merge of two runs, of which the first stands by ascending key, keeps
/// nodes with the same key in the order in which they stand in the two
/// runs, the first run before the second.
pub proof fn lemma_merge_keeps_ties(nodes: Seq<Node>, p: Seq<usize>, q: Seq<usize>)
    requires
        by_key(nodes, p),
    ensures
        ties_kept(nodes, p + q, merge_by_key(nodes, p, q)),
    decreases p.len() + q.len(),
{
    let m = merge_by_key(nodes, p, q);
    let whole = p + q;
    if p.len() == 0 {
        assert(whole =~= q);
        lemma_ties_of_itself(nodes, q);
    } else if q.len() == 0 {
        assert(whole =~= p);
        lemma_ties_of_itself(nodes, p);
    } else if nodes[p[0] as int].z <= nodes[q[0] as int].z {
        let p_left = p.drop_first();
        let rest = merge_by_key(nodes, p_left, q);
        let part = p_left + q;
        assert(by_key(nodes, p_left)) by {
            assert forall|j: int, k: int| 0 <= j < k < p_left.len() implies nodes[p_left[j] as int].z
                <= nodes[p_left[k] as int].z by {
                assert(p_left[j] == p[j + 1] && p_left[k] == p[k + 1]);
            }
        }
        lemma_merge_keeps_ties(nodes, p_left, q);
        lemma_merge_has_all(nodes, p_left, q);
        assert forall|k: int| 0 <= k < part.len() implies part[k] == whole[k + 1] by {
            if k < p_left.len() {
                assert(part[k] == p_left[k]);
            }
        }
        assert forall|i: int, j: int| 0 <= i < j < m.len() implies #[trigger] tie_kept(
            nodes,
            whole,
            m,
            i,
            j,
        ) by {
            if nodes[m[i] as int].z == nodes[m[j] as int].z {
                assert(m[j] == rest[j - 1]);
                if i == 0 {
                    lemma_merge_from_runs(nodes, p_left, q, j - 1);
                    let x = rest[j - 1];
                    if p_left.contains(x) {
                        let c = choose|c: int| 0 <= c < p_left.len() && p_left[c] == x;
                        assert(whole[c + 1] == x);
                        assert(0 <= 0 < c + 1 < whole.len() && whole[0] == m[0] && whole[c + 1]
                            == m[j]);
                    } else {
                        let c = choose|c: int| 0 <= c < q.len() && q[c] == x;
                        assert(whole[p.len() + c] == x);
                        assert(0 <= 0 < p.len() + c < whole.len() && whole[0] == m[0]
                            && whole[p.len() + c] == m[j]);
                    }
                } else {
                    assert(m[i] == rest[i - 1]);
                    assert(tie_kept(nodes, part, rest, i - 1, j - 1));
                    let (a, b) = choose|a: int, b: int|
                        0 <= a < b < part.len() && part[a] == rest[i - 1] && part[b] == rest[j - 1];
                    assert(0 <= a + 1 < b + 1 < whole.len() && whole[a + 1] == m[i] && whole[b
                        + 1] == m[j]);
                }
            }
        }
    } else {
        let q_left = q.drop_first();
        let rest = merge_by_key(nodes, p, q_left);
        let part = p + q_left;
        lemma_merge_keeps_ties(nodes, p, q_left);
        lemma_merge_has_all(nodes, p, q_left);
        assert forall|k: int| 0 <= k < part.len() implies part[k] == whole[if k < p.len() {
            k
        } else {
            k + 1
        }] by {
            if k >= p.len() {
                assert(part[k] == q_left[k - p.len()]);
            }
        }
        assert forall|i: int, j: int| 0 <= i < j < m.len() implies #[trigger] tie_kept(
            nodes,
            whole,
            m,
            i,
            j,
        ) by {
            if nodes[m[i] as int].z == nodes[m[j] as int].z {
                assert(m[j] == rest[j - 1]);
                if i == 0 {
                    lemma_merge_from_runs(nodes, p, q_left, j - 1);
                    let x = rest[j - 1];
                    assert(m[0] == q[0]);
                    if p.contains(x) {
                        let c = choose|c: int| 0 <= c < p.len() && p[c] == x;
                        if c > 0 {
                            assert(nodes[p[0] as int].z <= nodes[p[c] as int].z);
                        }
                        assert(false);
                    }
                    let c = choose|c: int| 0 <= c < q_left.len() && q_left[c] == x;
                    assert(whole[p.len() + 1 + c] == x);
                    assert(whole[p.len() as int] == q[0]);
                    assert(0 <= p.len() < p.len() + 1 + c < whole.len() && whole[p.len() as int]
                        == m[0] && whole[p.len() + 1 + c] == m[j]);
                } else {
                    assert(m[i] == rest[i - 1]);
                    assert(tie_kept(nodes, part, rest, i - 1, j - 1));
                    let (a, b) = choose|a: int, b: int|
                        0 <= a < b < part.len() && part[a] == rest[i - 1] && part[b] == rest[j - 1];
                    let a2 = if a < p.len() {
                        a
                    } else {
                        a + 1
                    };
                    let b2 = if b < p.len() {
                        b
                    } else {
                        b + 1
                    };
                    assert(0 <= a2 < b2 < whole.len() && whole[a2] == m[i] && whole[b2] == m[j]);
                }
            }
        }
    }
}

/// A merge has the nodes of both runs.
pub proof fn lemma_merge_has_all(nodes: Seq<Node>, p: Seq<usize>, q: Seq<usize>)
    ensures
        merge_by_key(nodes, p, q).len() == p.len() + q.len(),
        merge_by_key(nodes, p, q).to_multiset() == p.to_multiset().add(q.to_multiset()),
    decreases p.len() + q.len(),
{
    broadcast use vstd::multiset::group_multiset_axioms;
    broadcast use vstd::seq_lib::group_to_multiset_ensures;

    let m = merge_by_key(nodes, p, q);
    if p.len() == 0 {
        assert(p.to_multiset() =~= vstd::multiset::Multiset::<usize>::empty());
        assert(m.to_multiset() =~= p.to_multiset().add(q.to_multiset()));
    } else if q.len() == 0 {
        assert(q.to_multiset() =~= vstd::multiset::Multiset::<usize>::empty());
        assert(m.to_multiset() =~= p.to_multiset().add(q.to_multiset()));
    } else if nodes[p[0] as int].z <= nodes[q[0] as int].z {
        let rest = merge_by_key(nodes, p.drop_first(), q);
        lemma_merge_has_all(nodes, p.drop_first(), q);
        lemma_front_multiset(p[0], rest);
        lemma_front_multiset(p[0], p.drop_first());
        assert(seq![p[0]] + p.drop_first() =~= p);
        assert(m.to_multiset() =~= p.to_multiset().add(q.to_multiset()));
    } else {
        let rest = merge_by_key(nodes, p, q.drop_first());
        lemma_merge_has_all(nodes, p, q.drop_first());
        lemma_front_multiset(q[0], rest);
        lemma_front_multiset(q[0], q.drop_first());
        assert(seq![q[0]] + q.drop_first() =~= q);
        assert(m.to_multiset() =~= p.to_multiset().add(q.to_multiset()));
    }
}

/// A sequence with one more element in front has one more element.
pub proof fn lemma_front_multiset(v: usize, s: Seq<usize>)
    ensures
        (seq![v] + s).to_multiset() == s.to_multiset().insert(v),
{
    broadcast use vstd::multiset::group_multiset_axioms;
    broadcast use vstd::seq_lib::group_to_multiset_ensures;

    let whole = seq![v] + s;
    assert(whole.remove(0) =~= s);
    vstd::seq_lib::to_multiset_remove(whole, 0);
    assert(whole.to_multiset().count(v) > 0) by {
        assert(whole.contains(whole[0]));
    }
    assert(whole.to_multiset() =~= s.to_multiset().insert(v));
}

/// Every node of a merge is a node of one of the two runs.
pub proof fn lemma_merge_from_runs(nodes: Seq<Node>, p: Seq<usize>, q: Seq<usize>, k: int)
    requires
        0 <= k < merge_by_key(nodes, p, q).len(),
    ensures
        p.contains(merge_by_key(nodes, p, q)[k]) || q.contains(merge_by_key(nodes, p, q)[k]),
    decreases p.len() + q.len(),
{
    let m = merge_by_key(nodes, p, q);
    if p.len() == 0 {
        assert(q[k] == m[k]);
    } else if q.len() == 0 {
        assert(p[k] == m[k]);
    } else if nodes[p[0] as int].z <= nodes[q[0] as int].z {
        if k == 0 {
            assert(p[0] == m[0]);
        } else {
            lemma_merge_from_runs(nodes, p.drop_first(), q, k - 1);
            let v = merge_by_key(nodes, p.drop_first(), q)[k - 1];
            assert(m[k] == v);
            if p.drop_first().contains(v) {
                let j = choose|j: int| 0 <= j < p.drop_first().len() && p.drop_first()[j] == v;
                assert(p[j + 1] == v);
            }
        }
    } else {
        if k == 0 {
            assert(q[0] == m[0]);
        } else {
            lemma_merge_from_runs(nodes, p, q.drop_first(), k - 1);
            let v = merge_by_key(nodes, p, q.drop_first())[k - 1];
            assert(m[k] == v);
            if q.drop_first().contains(v) {
                let j = choose|j: int| 0 <= j < q.drop_first().len() && q.drop_first()[j] == v;
                assert(q[j + 1] == v);
            }
        }
    }
}

/// The merge of two runs that stand by ascending key stands by ascending
/// key.
pub proof fn lemma_merge_by_key(nodes: Seq<Node>, p: Seq<usize>, q: Seq<usize>)
    requires
        by_key(nodes, p),
        by_key(nodes, q),
    ensures
        by_key(nodes, merge_by_key(nodes, p, q)),
    decreases p.len() + q.len(),
{
    let m = merge_by_key(nodes, p, q);
    if p.len() == 0 || q.len() == 0 {
    } else {
        let first_p = nodes[p[0] as int].z <= nodes[q[0] as int].z;
        let (head, p_left, q_left) = if first_p {
            (p[0], p.drop_first(), q)
        } else {
            (q[0], p, q.drop_first())
        };
        let rest = merge_by_key(nodes, p_left, q_left);
        assert(by_key(nodes, p_left)) by {
            assert forall|j: int, k: int| 0 <= j < k < p_left.len() implies nodes[p_left[j] as int].z
                <= nodes[p_left[k] as int].z by {
                if first_p {
                    assert(nodes[p[j + 1] as int].z <= nodes[p[k + 1] as int].z);
                }
            }
        }
        assert(by_key(nodes, q_left)) by {
            assert forall|j: int, k: int| 0 <= j < k < q_left.len() implies nodes[q_left[j] as int].z
                <= nodes[q_left[k] as int].z by {
                if !first_p {
                    assert(nodes[q[j + 1] as int].z <= nodes[q[k + 1] as int].z);
                }
            }
        }
        lemma_merge_by_key(nodes, p_left, q_left);
        assert(m =~= seq![head] + rest);
        assert forall|j: int, k: int| 0 <= j < k < m.len() implies nodes[m[j] as int].z
            <= nodes[m[k] as int].z by {
            if j == 0 {
                lemma_merge_from_runs(nodes, p_left, q_left, k - 1);
                let v = rest[k - 1];
                assert(m[k] == v);
                if p_left.contains(v) {
                    let i = choose|i: int| 0 <= i < p_left.len() && p_left[i] == v;
                    if first_p {
                        assert(nodes[p[0] as int].z <= nodes[p[i + 1] as int].z);
                    } else {
                        if i > 0 {
                            assert(nodes[p[0] as int].z <= nodes[p[i] as int].z);
                        }
                    }
                } else {
                    let i = choose|i: int| 0 <= i < q_left.len() && q_left[i] == v;
                    if first_p {
                        if i > 0 {
                            assert(nodes[q[0] as int].z <= nodes[q[i] as int].z);
                        }
                    } else {
                        assert(nodes[q[0] as int].z <= nodes[q[i + 1] as int].z);
                    }
                }
            } else {
                assert(m[j] == rest[j - 1] && m[k] == rest[k - 1]);
            }
        }
    }
}

/// Whether the node at position `k` of `o` is linked back, in z-order, to
/// the node before it, and the first node to none.
pub open spec fn z_back(nodes: Seq<Node>, o: Seq<usize>, k: int) -> bool {
    nodes[o[k] as int].prev_z_i == (if k > 0 {
        Some(o[k - 1])
    } else {
        None
    })
}

/// Whether `o` is a list that is being put together: it runs from `head`
/// to `tail`, each node is linked to the node behind it and back to the
/// node before it, and only where the last node leads is open.
pub open spec fn z_out(nodes: Seq<Node>, head: Option<usize>, tail: Option<usize>, o: Seq<usize>) -> bool {
    &&& distinct_nodes(nodes, o)
    &&& head == (if o.len() > 0 {
        Some(o[0])
    } else {
        None
    })
    &&& tail == (if o.len() > 0 {
        Some(o[o.len() - 1])
    } else {
        None
    })
    &&& forall|k: int| 0 <= k < o.len() ==> #[trigger] z_back(nodes, o, k)
    &&& forall|k: int| 0 <= k < o.len() - 1 ==> #[trigger] z_link(nodes, o, k, None)
}

/// Whether two arenas differ in their z-order links alone.
pub open spec fn same_but_z(before: Seq<Node>, after: Seq<Node>) -> bool {
    &&& after.len() == before.len()
    &&& forall|j: int|
        0 <= j < before.len() ==> #[trigger] after[j] == (Node {
            prev_z_i: after[j].prev_z_i,
            next_z_i: after[j].next_z_i,
            ..before[j]
        })
}

/// The arena after the node `e` was put behind the tail of the list that is
/// being put together.
pub open spec fn taken(nodes: Seq<Node>, e: usize, tail: Option<usize>) -> Seq<Node> {
    let n1 = nodes.update(e as int, Node { prev_z_i: tail, ..nodes[e as int] });
    match tail {
        Some(t) => n1.update(t as int, Node { next_z_i: Some(e), ..n1[t as int] }),
        None => n1,
    }
}

/// A merge depends on the keys alone.
pub proof fn lemma_merge_same_keys(before: Seq<Node>, after: Seq<Node>, p: Seq<usize>, q: Seq<usize>)
    requires
        same_but_z(before, after),
        distinct_nodes(before, p),
        distinct_nodes(before, q),
    ensures
        merge_by_key(after, p, q) == merge_by_key(before, p, q),
    decreases p.len() + q.len(),
{
    if p.len() > 0 && q.len() > 0 {
        assert(1 <= p[0] < before.len() && 1 <= q[0] < before.len());
        assert(after[p[0] as int].z == before[p[0] as int].z);
        assert(after[q[0] as int].z == before[q[0] as int].z);
        lemma_tail_distinct(before, p);
        lemma_tail_distinct(before, q);
        if before[p[0] as int].z <= before[q[0] as int].z {
            lemma_merge_same_keys(before, after, p.drop_first(), q);
        } else {
            lemma_merge_same_keys(before, after, p, q.drop_first());
        }
    }
}

/// What is left of different nodes when the first is dropped are different
/// nodes.
pub proof fn lemma_tail_distinct(nodes: Seq<Node>, s: Seq<usize>)
    requires
        distinct_nodes(nodes, s),
        s.len() > 0,
    ensures
        distinct_nodes(nodes, s.drop_first()),
{
    let t = s.drop_first();
    assert forall|k: int| 0 <= k < t.len() implies 1 <= #[trigger] t[k] < nodes.len() by {
        assert(t[k] == s[k + 1]);
    }
    assert forall|j: int, k: int| 0 <= j < k < t.len() implies t[j] != t[k] by {
        assert(t[j] == s[j + 1] && t[k] == s[k + 1]);
    }
}

/// Putting a node behind the tail leaves a chain of other nodes as it was.
pub proof fn lemma_take_keeps_chain(
    nodes: Seq<Node>,
    e: usize,
    tail: Option<usize>,
    first: Option<usize>,
    s: Seq<usize>,
    end: Option<usize>,
)
    requires
        1 <= e < nodes.len(),
        tail matches Some(t) ==> 1 <= t < nodes.len(),
        z_chain(nodes, first, s, end),
        forall|k: int| 0 <= k < s.len() ==> #[trigger] s[k] != e && Some(s[k]) != tail,
    ensures
        z_chain(taken(nodes, e, tail), first, s, end),
{
    let after = taken(nodes, e, tail);
    assert(after.len() == nodes.len());
    assert forall|k: int| 0 <= k < s.len() implies #[trigger] z_link(after, s, k, end) by {
        assert(z_link(nodes, s, k, end));
        assert(s[k] != e && Some(s[k]) != tail);
        assert(1 <= s[k] < nodes.len());
        assert(after[s[k] as int] == nodes[s[k] as int]);
    }
}

/// Putting a node behind the tail of the list that is being put together
/// makes the list one node longer.
pub proof fn lemma_take_grows_out(
    nodes: Seq<Node>,
    e: usize,
    head: Option<usize>,
    tail: Option<usize>,
    o: Seq<usize>,
)
    requires
        1 <= e < nodes.len(),
        z_out(nodes, head, tail, o),
        forall|k: int| 0 <= k < o.len() ==> #[trigger] o[k] != e,
    ensures
        z_out(
            taken(nodes, e, tail),
            match tail {
                Some(t) => head,
                None => Some(e),
            },
            Some(e),
            o.push(e),
        ),
        same_but_z(nodes, taken(nodes, e, tail)),
        taken(nodes, e, tail)[e as int].next_z_i == nodes[e as int].next_z_i,
{
    let after = taken(nodes, e, tail);
    let longer = o.push(e);
    let n = o.len() as int;
    assert(after.len() == nodes.len()) by {
        if n > 0 {
            assert(1 <= o[n - 1] < nodes.len());
        }
    }
    if n > 0 {
        assert(o[n - 1] != e);
        assert(1 <= o[n - 1] < nodes.len());
    }
    assert forall|k: int| 0 <= k < longer.len() implies 1 <= #[trigger] longer[k] < after.len() by {
        if k < n {
            assert(longer[k] == o[k]);
        }
    }
    assert forall|j: int, k: int| 0 <= j < k < longer.len() implies longer[j] != longer[k] by {
        if k < n {
            assert(longer[j] == o[j] && longer[k] == o[k]);
        } else {
            assert(longer[j] == o[j]);
        }
    }
    assert forall|k: int| 0 <= k < longer.len() implies #[trigger] z_back(after, longer, k) by {
        if k < n {
            assert(z_back(nodes, o, k));
            assert(longer[k] == o[k]);
            assert(o[k] != e);
            assert(1 <= o[k] < nodes.len());
            assert(after[o[k] as int].prev_z_i == nodes[o[k] as int].prev_z_i);
            if k > 0 {
                assert(longer[k - 1] == o[k - 1]);
            }
        } else {
            assert(after[e as int].prev_z_i == tail);
            if n > 0 {
                assert(longer[k - 1] == o[n - 1]);
            }
        }
    }
    assert forall|k: int| 0 <= k < longer.len() - 1 implies #[trigger] z_link(
        after,
        longer,
        k,
        None,
    ) by {
        assert(longer[k] == o[k]);
        assert(1 <= o[k] < nodes.len());
        assert(o[k] != e);
        if k < n - 1 {
            assert(z_link(nodes, o, k, None));
            assert(o[k] != o[n - 1]);
            assert(after[o[k] as int].next_z_i == nodes[o[k] as int].next_z_i);
            assert(longer[k + 1] == o[k + 1]);
        } else {
            assert(after[o[k] as int].next_z_i == Some(e));
        }
    }
    assert forall|j: int| 0 <= j < nodes.len() implies #[trigger] after[j] == (Node {
        prev_z_i: after[j].prev_z_i,
        next_z_i: after[j].next_z_i,
        ..nodes[j]
    }) by {}
}

/// What is left of a chain behind its first node is a chain.
pub proof fn lemma_chain_rest(nodes: Seq<Node>, first: Option<usize>, s: Seq<usize>, end: Option<usize>)
    requires
        z_chain(nodes, first, s, end),
        s.len() > 0,
    ensures
        z_chain(nodes, nodes[s[0] as int].next_z_i, s.drop_first(), end),
{
    let t = s.drop_first();
    lemma_tail_distinct(nodes, s);
    assert(z_link(nodes, s, 0, end));
    assert forall|k: int| 0 <= k < t.len() implies #[trigger] z_link(nodes, t, k, end) by {
        assert(z_link(nodes, s, k + 1, end));
        assert(t[k] == s[k + 1]);
        if k + 1 < t.len() {
            assert(t[k + 1] == s[k + 2]);
        }
    }
    if t.len() > 0 {
        assert(t[0] == s[1]);
    }
}

/// Whether a merge stands as it should: `o` is the list put together so
/// far, `p` and `q` are what is left of the two runs, `r` is what follows
/// the second run, and no node is in two of them.
pub open spec fn merge_ready(
    nodes: Seq<Node>,
    m: Merge,
    o: Seq<usize>,
    p: Seq<usize>,
    q: Seq<usize>,
    r: Seq<usize>,
    p_end: Option<usize>,
) -> bool {
    &&& z_out(nodes, m.head, m.tail, o)
    &&& z_chain(nodes, m.p, p, p_end)
    &&& m.p_size == p.len()
    &&& z_chain(nodes, m.q, q + r, None)
    &&& q.len() <= m.q_size
    &&& (q.len() < m.q_size ==> r.len() == 0)
    &&& apart(o, p)
    &&& apart(o, q + r)
    &&& apart(p, q + r)
}

/// A merge that stands as it should puts the two runs, merged by key,
/// behind the list; what follows the second run is left as it was.
pub proof fn lemma_merged_runs(
    nodes: Seq<Node>,
    m: Merge,
    o: Seq<usize>,
    p: Seq<usize>,
    q: Seq<usize>,
    r: Seq<usize>,
    p_end: Option<usize>,
)
    requires
        merge_ready(nodes, m, o, p, q, r, p_end),
    ensures
        ({
            let (after, e) = merged(nodes, m);
            &&& z_out(after, e.head, e.tail, o + merge_by_key(nodes, p, q))
            &&& z_chain(after, e.q, r, None)
            &&& same_but_z(nodes, after)
        }),
    decreases p.len() + q.len(),
{
    let qr = q + r;
    if q.len() > 0 {
        assert(qr[0] == q[0]);
    }
    match next_from_first(nodes, m) {
        None => {
            assert(p.len() == 0);
            assert(q.len() == 0);
            assert(o + merge_by_key(nodes, p, q) =~= o);
            assert(qr =~= r);
            assert forall|j: int| 0 <= j < nodes.len() implies #[trigger] nodes[j] == (Node {
                prev_z_i: nodes[j].prev_z_i,
                next_z_i: nodes[j].next_z_i,
                ..nodes[j]
            }) by {}
        },
        Some(first) => {
            let e = if first {
                m.p->0
            } else {
                m.q->0
            };
            assert(first ==> p.len() > 0 && e == p[0]);
            assert(!first ==> q.len() > 0 && e == q[0]);
            if first {
                assert(1 <= p[0] < nodes.len());
            } else {
                assert(1 <= q[0] < nodes.len()) by {
                    assert(1 <= qr[0] < nodes.len());
                }
            }
            let n2 = taken(nodes, e, m.tail);
            let head = match m.tail {
                Some(t) => m.head,
                None => Some(e),
            };
            let rest = nodes[e as int].next_z_i;
            let o2 = o.push(e);
            let p_left = if first {
                p.drop_first()
            } else {
                p
            };
            let q_left = if first {
                q
            } else {
                q.drop_first()
            };
            let m2 = if first {
                Merge { p: rest, p_size: (m.p_size - 1) as usize, head, tail: Some(e), ..m }
            } else {
                Merge { q: rest, q_size: (m.q_size - 1) as usize, head, tail: Some(e), ..m }
            };
            assert(merged(nodes, m) == merged(n2, m2));
            assert forall|k: int| 0 <= k < o.len() implies #[trigger] o[k] != e by {
                if first {
                    assert(o[k] != p[0]);
                } else {
                    assert(o[k] != qr[0]);
                }
            }
            lemma_take_grows_out(nodes, e, m.head, m.tail, o);
            let tail_node = m.tail;
            if o.len() > 0 {
                assert(1 <= o[o.len() - 1] < nodes.len());
            }
            if first {
                lemma_chain_rest(nodes, m.p, p, p_end);
                assert forall|k: int| 0 <= k < p_left.len() implies #[trigger] p_left[k] != e && Some(p_left[k])
                    != tail_node by {
                    assert(p_left[k] == p[k + 1]);
                    assert(p[0] != p[k + 1]);
                    if o.len() > 0 {
                        assert(o[o.len() - 1] != p[k + 1]);
                    }
                }
                lemma_take_keeps_chain(nodes, e, m.tail, rest, p_left, p_end);
                assert forall|k: int| 0 <= k < qr.len() implies #[trigger] qr[k] != e && Some(qr[k])
                    != tail_node by {
                    assert(p[0] != qr[k]);
                    if o.len() > 0 {
                        assert(o[o.len() - 1] != qr[k]);
                    }
                }
                lemma_take_keeps_chain(nodes, e, m.tail, m.q, qr, None);
            } else {
                lemma_chain_rest(nodes, m.q, qr, None);
                assert(qr.drop_first() =~= q_left + r);
                let qr_left = q_left + r;
                assert forall|k: int| 0 <= k < qr_left.len() implies #[trigger] qr_left[k] != e && Some(
                    qr_left[k],
                ) != tail_node by {
                    assert(qr_left[k] == qr[k + 1]);
                    assert(qr[0] != qr[k + 1]);
                    if o.len() > 0 {
                        assert(o[o.len() - 1] != qr[k + 1]);
                    }
                }
                lemma_take_keeps_chain(nodes, e, m.tail, rest, qr_left, None);
                assert forall|k: int| 0 <= k < p.len() implies #[trigger] p[k] != e && Some(p[k])
                    != tail_node by {
                    assert(p[k] != qr[0]);
                    if o.len() > 0 {
                        assert(o[o.len() - 1] != p[k]);
                    }
                }
                lemma_take_keeps_chain(nodes, e, m.tail, m.p, p, p_end);
            }
            let qr_left = q_left + r;
            assert(apart(o2, p_left)) by {
                assert forall|j: int, k: int| 0 <= j < o2.len() && 0 <= k < p_left.len() implies o2[j]
                    != p_left[k] by {
                    let pk = if first {
                        k + 1
                    } else {
                        k
                    };
                    assert(p_left[k] == p[pk]);
                    if j < o.len() {
                        assert(o2[j] == o[j]);
                        assert(o[j] != p[pk]);
                    } else if first {
                        assert(p[0] != p[pk]);
                    } else {
                        assert(p[pk] != qr[0]);
                    }
                }
            }
            assert(apart(o2, qr_left)) by {
                assert forall|j: int, k: int| 0 <= j < o2.len() && 0 <= k < qr_left.len() implies o2[j]
                    != qr_left[k] by {
                    let qk = if first {
                        k
                    } else {
                        k + 1
                    };
                    assert(qr_left[k] == qr[qk]);
                    if j < o.len() {
                        assert(o2[j] == o[j]);
                        assert(o[j] != qr[qk]);
                    } else if first {
                        assert(p[0] != qr[qk]);
                    } else {
                        assert(qr[0] != qr[qk]);
                    }
                }
            }
            assert(apart(p_left, qr_left)) by {
                assert forall|j: int, k: int| 0 <= j < p_left.len() && 0 <= k < qr_left.len() implies p_left[j]
                    != qr_left[k] by {
                    let pj = if first {
                        j + 1
                    } else {
                        j
                    };
                    let qk = if first {
                        k
                    } else {
                        k + 1
                    };
                    assert(p_left[j] == p[pj] && qr_left[k] == qr[qk]);
                    assert(p[pj] != qr[qk]);
                }
            }
            assert(merge_ready(n2, m2, o2, p_left, q_left, r, p_end));
            lemma_merged_runs(n2, m2, o2, p_left, q_left, r, p_end);
            assert(distinct_nodes(nodes, q_left)) by {
                assert forall|k: int| 0 <= k < q_left.len() implies 1 <= #[trigger] q_left[k]
                    < nodes.len() by {
                    assert(q_left[k] == qr_left[k]);
                    assert(1 <= qr_left[k] < n2.len());
                }
                assert forall|j: int, k: int| 0 <= j < k < q_left.len() implies q_left[j] != q_left[k] by {
                    assert(q_left[j] == qr_left[j] && q_left[k] == qr_left[k]);
                }
            }
            assert(distinct_nodes(nodes, p_left));
            lemma_merge_same_keys(nodes, n2, p_left, q_left);
            assert(o2 + merge_by_key(nodes, p_left, q_left) =~= o + merge_by_key(nodes, p, q)) by {
                if first {
                    if q.len() == 0 {
                        assert(merge_by_key(nodes, p, q) == p);
                        assert(merge_by_key(nodes, p_left, q_left) == p_left) by {
                            if p_left.len() == 0 {
                                assert(p_left =~= q_left);
                            }
                        }
                        assert(seq![p[0]] + p_left =~= p);
                    } else {
                        assert(1 <= q[0] < nodes.len());
                        assert(nodes[p[0] as int].z <= nodes[q[0] as int].z);
                    }
                } else {
                    if p.len() == 0 {
                        assert(merge_by_key(nodes, p, q) == q);
                        assert(merge_by_key(nodes, p_left, q_left) == q_left);
                        assert(seq![q[0]] + q_left =~= q);
                    } else {
                        assert(nodes[p[0] as int].z > nodes[q[0] as int].z);
                    }
                }
            }
            let (after, end_state) = merged(n2, m2);
            assert forall|j: int| 0 <= j < nodes.len() implies #[trigger] after[j] == (Node {
                prev_z_i: after[j].prev_z_i,
                next_z_i: after[j].next_z_i,
                ..nodes[j]
            }) by {
                assert(n2[j] == (Node {
                    prev_z_i: n2[j].prev_z_i,
                    next_z_i: n2[j].next_z_i,
                    ..nodes[j]
                }));
                assert(after[j] == (Node {
                    prev_z_i: after[j].prev_z_i,
                    next_z_i: after[j].next_z_i,
                    ..n2[j]
                }));
            }
        },
    }
}

/// Where a chain starts.
pub open spec fn start_of(s: Seq<usize>) -> Option<usize> {
    if s.len() > 0 {
        Some(s[0])
    } else {
        None
    }
}

/// The part of a chain from position `a` on is a chain.
pub proof fn lemma_chain_from(nodes: Seq<Node>, first: Option<usize>, s: Seq<usize>, a: int)
    requires
        z_chain(nodes, first, s, None),
        0 <= a <= s.len(),
    ensures
        z_chain(nodes, start_of(s.subrange(a, s.len() as int)), s.subrange(a, s.len() as int), None),
{
    let t = s.subrange(a, s.len() as int);
    assert forall|k: int| 0 <= k < t.len() implies 1 <= #[trigger] t[k] < nodes.len() by {
        assert(t[k] == s[a + k]);
    }
    assert forall|j: int, k: int| 0 <= j < k < t.len() implies t[j] != t[k] by {
        assert(t[j] == s[a + j] && t[k] == s[a + k]);
    }
    assert forall|k: int| 0 <= k < t.len() implies #[trigger] z_link(nodes, t, k, None) by {
        assert(z_link(nodes, s, a + k, None));
        assert(t[k] == s[a + k]);
        if k + 1 < t.len() {
            assert(t[k + 1] == s[a + k + 1]);
        }
    }
}

/// The part of a chain before position `a` is a chain that leads to the
/// part from `a` on.
pub proof fn lemma_chain_upto(nodes: Seq<Node>, first: Option<usize>, s: Seq<usize>, a: int)
    requires
        z_chain(nodes, first, s, None),
        0 <= a <= s.len(),
    ensures
        z_chain(nodes, first, s.subrange(0, a), start_of(s.subrange(a, s.len() as int))),
{
    let t = s.subrange(0, a);
    let rest = s.subrange(a, s.len() as int);
    assert forall|k: int| 0 <= k < t.len() implies 1 <= #[trigger] t[k] < nodes.len() by {
        assert(t[k] == s[k]);
    }
    assert forall|j: int, k: int| 0 <= j < k < t.len() implies t[j] != t[k] by {
        assert(t[j] == s[j] && t[k] == s[k]);
    }
    assert forall|k: int| 0 <= k < t.len() implies #[trigger] z_link(
        nodes,
        t,
        k,
        start_of(rest),
    ) by {
        assert(z_link(nodes, s, k, None));
        assert(t[k] == s[k]);
        if k + 1 < t.len() {
            assert(t[k + 1] == s[k + 1]);
        } else if a < s.len() {
            assert(rest[0] == s[a]);
        }
    }
    if a > 0 {
        assert(t[0] == s[0]);
    } else if s.len() > 0 {
        assert(rest[0] == s[0]);
    }
}

/// The lesser of two numbers.
pub open spec fn least_of(a: int, b: int) -> int {
    if a <= b {
        a
    } else {
        b
    }
}

/// Counting a run along a chain stops behind `steps` nodes, or where the
/// chain ends.
pub proof fn lemma_run_end(nodes: Seq<Node>, q: Option<usize>, s: Seq<usize>, size: nat, steps: nat)
    requires
        z_chain(nodes, q, s, None),
    ensures
        run_end(nodes, q, size, steps) == (
            start_of(s.subrange(least_of(steps as int, s.len() as int), s.len() as int)),
            (size + least_of(steps as int, s.len() as int)) as nat,
        ),
    decreases steps,
{
    if s.len() > 0 && steps > 0 {
        lemma_chain_rest(nodes, q, s, None);
        lemma_run_end(nodes, nodes[s[0] as int].next_z_i, s.drop_first(), size + 1, (steps - 1) as nat);
        let k = least_of(steps as int, s.len() as int);
        assert(s.drop_first().subrange(k - 1, s.len() - 1) =~= s.subrange(k, s.len() as int));
    } else if s.len() > 0 {
        assert(s.subrange(0, s.len() as int) =~= s);
    } else {
        assert(s.subrange(0, 0) =~= s);
    }
}

/// A list after one pass: each two neighbouring runs of `s` nodes merged by
/// key.
pub open spec fn merge_pass(nodes: Seq<Node>, l: Seq<usize>, s: int) -> Seq<usize>
    decreases l.len(),
{
    if l.len() == 0 || s <= 0 {
        l
    } else {
        let a = least_of(s, l.len() as int);
        let b = least_of(a + s, l.len() as int);
        merge_by_key(nodes, l.subrange(0, a), l.subrange(a, b)) + merge_pass(
            nodes,
            l.subrange(b, l.len() as int),
            s,
        )
    }
}

/// The number of merges that one pass over a list of `len` nodes makes.
pub open spec fn merge_count(len: int, s: int) -> nat
    decreases len,
{
    if len <= 0 || s <= 0 {
        0
    } else {
        1 + merge_count(len - least_of(2 * s, len), s)
    }
}

/// A part of different nodes are different nodes.
pub proof fn lemma_part_distinct(nodes: Seq<Node>, s: Seq<usize>, a: int, b: int)
    requires
        distinct_nodes(nodes, s),
        0 <= a <= b <= s.len(),
    ensures
        distinct_nodes(nodes, s.subrange(a, b)),
{
    let t = s.subrange(a, b);
    assert forall|k: int| 0 <= k < t.len() implies 1 <= #[trigger] t[k] < nodes.len() by {
        assert(t[k] == s[a + k]);
    }
    assert forall|j: int, k: int| 0 <= j < k < t.len() implies t[j] != t[k] by {
        assert(t[j] == s[a + j] && t[k] == s[a + k]);
    }
}

/// A pass depends on the keys alone.
pub proof fn lemma_pass_same_keys(before: Seq<Node>, after: Seq<Node>, l: Seq<usize>, s: int)
    requires
        same_but_z(before, after),
        distinct_nodes(before, l),
    ensures
        merge_pass(after, l, s) == merge_pass(before, l, s),
    decreases l.len(),
{
    if l.len() > 0 && s > 0 {
        let a = least_of(s, l.len() as int);
        let b = least_of(a + s, l.len() as int);
        lemma_part_distinct(before, l, 0, a);
        lemma_part_distinct(before, l, a, b);
        lemma_part_distinct(before, l, b, l.len() as int);
        lemma_merge_same_keys(before, after, l.subrange(0, a), l.subrange(a, b));
        lemma_pass_same_keys(before, after, l.subrange(b, l.len() as int), s);
    }
}

/// Arenas that differ in their z-order links alone, one after the other.
pub proof fn lemma_same_but_z_chain(first: Seq<Node>, second: Seq<Node>, third: Seq<Node>)
    requires
        same_but_z(first, second),
        same_but_z(second, third),
    ensures
        same_but_z(first, third),
{
    assert forall|j: int| 0 <= j < first.len() implies #[trigger] third[j] == (Node {
        prev_z_i: third[j].prev_z_i,
        next_z_i: third[j].next_z_i,
        ..first[j]
    }) by {
        assert(second[j] == (Node {
            prev_z_i: second[j].prev_z_i,
            next_z_i: second[j].next_z_i,
            ..first[j]
        }));
        assert(third[j] == (Node {
            prev_z_i: third[j].prev_z_i,
            next_z_i: third[j].next_z_i,
            ..second[j]
        }));
    }
}

/// One pass over a chain puts the chain, with each two neighbouring runs
/// merged by key, behind the list that is being put together.
pub proof fn lemma_pass(
    nodes: Seq<Node>,
    p: Option<usize>,
    l: Seq<usize>,
    o: Seq<usize>,
    in_size: usize,
    head: Option<usize>,
    tail: Option<usize>,
    merges: nat,
    fuel: nat,
)
    requires
        z_chain(nodes, p, l, None),
        z_out(nodes, head, tail, o),
        apart(o, l),
        in_size >= 1,
        fuel >= l.len(),
    ensures
        ({
            let (after, h, t, made) = pass(nodes, p, in_size, head, tail, merges, fuel);
            &&& z_out(after, h, t, o + merge_pass(nodes, l, in_size as int))
            &&& same_but_z(nodes, after)
            &&& made == merges + merge_count(l.len() as int, in_size as int)
        }),
    decreases l.len(),
{
    let s = in_size as int;
    let n = l.len() as int;
    if n == 0 {
        assert(o + merge_pass(nodes, l, s) =~= o);
        assert forall|j: int| 0 <= j < nodes.len() implies #[trigger] nodes[j] == (Node {
            prev_z_i: nodes[j].prev_z_i,
            next_z_i: nodes[j].next_z_i,
            ..nodes[j]
        }) by {}
    } else {
        let a = least_of(s, n);
        let b = least_of(a + s, n);
        let first = l.subrange(0, a);
        let second = l.subrange(a, b);
        let rest = l.subrange(b, n);
        let from_a = l.subrange(a, n);
        assert(1 <= l[0] < nodes.len());
        lemma_chain_rest(nodes, p, l, None);
        lemma_run_end(nodes, nodes[l[0] as int].next_z_i, l.drop_first(), 1, (s - 1) as nat);
        assert(l.drop_first().subrange(a - 1, n - 1) =~= from_a);
        let q = start_of(from_a);
        let m = Merge { p, p_size: a as usize, q, q_size: in_size, head, tail };
        lemma_chain_upto(nodes, p, l, a);
        lemma_chain_from(nodes, p, l, a);
        assert(second + rest =~= from_a);
        assert(apart(o, first)) by {
            assert forall|j: int, k: int| 0 <= j < o.len() && 0 <= k < first.len() implies o[j]
                != first[k] by {
                assert(first[k] == l[k]);
            }
        }
        assert(apart(o, second + rest)) by {
            assert forall|j: int, k: int|
                0 <= j < o.len() && 0 <= k < (second + rest).len() implies o[j] != (second
                + rest)[k] by {
                assert((second + rest)[k] == l[a + k]);
            }
        }
        assert(apart(first, second + rest)) by {
            assert forall|j: int, k: int|
                0 <= j < first.len() && 0 <= k < (second + rest).len() implies first[j] != (second
                + rest)[k] by {
                assert(first[j] == l[j]);
                assert((second + rest)[k] == l[a + k]);
            }
        }
        assert(merge_ready(nodes, m, o, first, second, rest, q));
        lemma_merged_runs(nodes, m, o, first, second, rest, q);
        let (n1, m1) = merged(nodes, m);
        let joined = merge_by_key(nodes, first, second);
        let o1 = o + joined;
        assert(apart(o1, rest)) by {
            assert forall|j: int, k: int| 0 <= j < o1.len() && 0 <= k < rest.len() implies o1[j]
                != rest[k] by {
                assert(rest[k] == l[b + k]);
                if j < o.len() {
                    assert(o1[j] == o[j]);
                } else {
                    let i = j - o.len();
                    assert(o1[j] == joined[i]);
                    lemma_merge_from_runs(nodes, first, second, i);
                    if first.contains(joined[i]) {
                        let x = choose|x: int| 0 <= x < first.len() && first[x] == joined[i];
                        assert(first[x] == l[x]);
                        assert(l[x] != l[b + k]);
                    } else {
                        let x = choose|x: int| 0 <= x < second.len() && second[x] == joined[i];
                        assert(second[x] == l[a + x]);
                        assert(l[a + x] != l[b + k]);
                    }
                }
            }
        }
        lemma_pass(n1, m1.q, rest, o1, in_size, m1.head, m1.tail, merges + 1, (fuel - 1) as nat);
        lemma_part_distinct(nodes, l, b, n);
        lemma_pass_same_keys(nodes, n1, rest, s);
        assert(o1 + merge_pass(nodes, rest, s) =~= o + merge_pass(nodes, l, s));
        let (after, h, t, made) = pass(n1, m1.q, in_size, m1.head, m1.tail, merges + 1, (fuel - 1) as nat);
        lemma_same_but_z_chain(nodes, n1, after);
        assert(pass(nodes, p, in_size, head, tail, merges, fuel) == (after, h, t, made));
        assert(merge_count(n, s) == 1 + merge_count(n - least_of(2 * s, n), s));
        assert(n - least_of(2 * s, n) == rest.len());
    }
}

/// Two lists that each keep ties in order, one behind the other, keep ties
/// in order.
pub proof fn lemma_ties_joined(
    nodes: Seq<Node>,
    l1: Seq<usize>,
    m1: Seq<usize>,
    l2: Seq<usize>,
    m2: Seq<usize>,
)
    requires
        ties_kept(nodes, l1, m1),
        ties_kept(nodes, l2, m2),
        forall|k: int| 0 <= k < m1.len() ==> l1.contains(#[trigger] m1[k]),
        forall|k: int| 0 <= k < m2.len() ==> l2.contains(#[trigger] m2[k]),
    ensures
        ties_kept(nodes, l1 + l2, m1 + m2),
{
    let l = l1 + l2;
    let m = m1 + m2;
    assert forall|i: int, j: int| 0 <= i < j < m.len() implies #[trigger] tie_kept(
        nodes,
        l,
        m,
        i,
        j,
    ) by {
        if nodes[m[i] as int].z == nodes[m[j] as int].z {
            if j < m1.len() {
                assert(tie_kept(nodes, l1, m1, i, j));
                let (a, b) = choose|a: int, b: int|
                    0 <= a < b < l1.len() && l1[a] == m1[i] && l1[b] == m1[j];
                assert(0 <= a < b < l.len() && l[a] == m[i] && l[b] == m[j]);
            } else if i >= m1.len() {
                let (i2, j2) = (i - m1.len(), j - m1.len());
                assert(m[i] == m2[i2] && m[j] == m2[j2]);
                assert(tie_kept(nodes, l2, m2, i2, j2));
                let (a, b) = choose|a: int, b: int|
                    0 <= a < b < l2.len() && l2[a] == m2[i2] && l2[b] == m2[j2];
                assert(0 <= a + l1.len() < b + l1.len() < l.len() && l[a + l1.len()] == m[i]
                    && l[b + l1.len()] == m[j]);
            } else {
                let j2 = j - m1.len();
                assert(m[j] == m2[j2]);
                assert(l1.contains(m1[i]));
                assert(l2.contains(m2[j2]));
                let a = choose|a: int| 0 <= a < l1.len() && l1[a] == m1[i];
                let b = choose|b: int| 0 <= b < l2.len() && l2[b] == m2[j2];
                assert(0 <= a < b + l1.len() < l.len() && l[a] == m[i] && l[b + l1.len()] == m[j]);
            }
        }
    }
}

/// A list that keeps the ties of a list that keeps the ties of a third in
/// order keeps the ties of the third in order.
pub proof fn lemma_ties_chain(nodes: Seq<Node>, l: Seq<usize>, m: Seq<usize>, l2: Seq<usize>)
    requires
        ties_kept(nodes, l, m),
        ties_kept(nodes, m, l2),
    ensures
        ties_kept(nodes, l, l2),
{
    assert forall|i: int, j: int| 0 <= i < j < l2.len() implies #[trigger] tie_kept(
        nodes,
        l,
        l2,
        i,
        j,
    ) by {
        if nodes[l2[i] as int].z == nodes[l2[j] as int].z {
            assert(tie_kept(nodes, m, l2, i, j));
            let (a, b) = choose|a: int, b: int|
                0 <= a < b < m.len() && m[a] == l2[i] && m[b] == l2[j];
            assert(tie_kept(nodes, l, m, a, b));
        }
    }
}

/// Ties that are kept in order by the keys of one arena are kept in order
/// by the keys of another with the same keys.
pub proof fn lemma_ties_same_keys(before: Seq<Node>, after: Seq<Node>, l: Seq<usize>, l2: Seq<usize>)
    requires
        same_but_z(before, after),
        forall|k: int| 0 <= k < l2.len() ==> 0 <= #[trigger] l2[k] < before.len(),
        ties_kept(after, l, l2),
    ensures
        ties_kept(before, l, l2),
{
    assert forall|i: int, j: int| 0 <= i < j < l2.len() implies #[trigger] tie_kept(
        before,
        l,
        l2,
        i,
        j,
    ) by {
        assert(0 <= l2[i] < before.len() && 0 <= l2[j] < before.len());
        assert(after[l2[i] as int].z == before[l2[i] as int].z);
        assert(after[l2[j] as int].z == before[l2[j] as int].z);
        assert(tie_kept(after, l, l2, i, j));
    }
}

/// One pass over runs that stand by ascending key keeps nodes with the same
/// key in the order in which they stood.
pub proof fn lemma_pass_keeps_ties(nodes: Seq<Node>, l: Seq<usize>, s: int)
    requires
        s >= 1,
        runs_by_key(nodes, l, s),
    ensures
        ties_kept(nodes, l, merge_pass(nodes, l, s)),
    decreases l.len(),
{
    let n = l.len() as int;
    if n > 0 {
        let a = least_of(s, n);
        let b = least_of(a + s, n);
        let p = l.subrange(0, a);
        let q = l.subrange(a, b);
        let r = l.subrange(b, n);
        let m = merge_by_key(nodes, p, q);
        let t = merge_pass(nodes, r, s);
        if n <= s {
            assert(p =~= l);
            assert(runs_by_key(nodes, r, s));
        } else {
            let from_s = l.subrange(s, n);
            assert(by_key(nodes, l.subrange(0, s)));
            assert(runs_by_key(nodes, from_s, s));
            if n <= 2 * s {
                assert(r.len() == 0);
                assert(runs_by_key(nodes, r, s));
            } else {
                assert(r =~= from_s.subrange(s, from_s.len() as int));
                assert(runs_by_key(nodes, from_s.subrange(s, from_s.len() as int), s));
            }
        }
        assert(by_key(nodes, p));
        lemma_merge_keeps_ties(nodes, p, q);
        lemma_pass_keeps_ties(nodes, r, s);
        lemma_merge_has_all(nodes, p, q);
        lemma_pass_runs(nodes, r, s);
        assert forall|k: int| 0 <= k < m.len() implies (p + q).contains(#[trigger] m[k]) by {
            lemma_merge_from_runs(nodes, p, q, k);
            if p.contains(m[k]) {
                let c = choose|c: int| 0 <= c < p.len() && p[c] == m[k];
                assert((p + q)[c] == m[k]);
            } else {
                let c = choose|c: int| 0 <= c < q.len() && q[c] == m[k];
                assert((p + q)[p.len() + c] == m[k]);
            }
        }
        assert forall|k: int| 0 <= k < t.len() implies r.contains(#[trigger] t[k]) by {
            broadcast use vstd::seq_lib::group_to_multiset_ensures;

            assert(t.contains(t[k]));
            assert(t.to_multiset().count(t[k]) > 0);
            assert(r.to_multiset().count(t[k]) > 0);
        }
        lemma_ties_joined(nodes, p + q, m, r, t);
        assert(p + q + r =~= l);
    } else {
        lemma_ties_of_itself(nodes, l);
    }
}

/// Whether each run of `s` nodes of the list, counted from its start,
/// stands by ascending key.
pub open spec fn runs_by_key(nodes: Seq<Node>, l: Seq<usize>, s: int) -> bool
    decreases l.len(),
{
    if l.len() <= s || s <= 0 {
        by_key(nodes, l)
    } else {
        by_key(nodes, l.subrange(0, s)) && runs_by_key(nodes, l.subrange(s, l.len() as int), s)
    }
}

/// A part of a list that stands by ascending key does so too.
pub proof fn lemma_part_by_key(nodes: Seq<Node>, l: Seq<usize>, a: int, b: int)
    requires
        by_key(nodes, l),
        0 <= a <= b <= l.len(),
    ensures
        by_key(nodes, l.subrange(a, b)),
{
    let t = l.subrange(a, b);
    assert forall|j: int, k: int| 0 <= j < k < t.len() implies nodes[t[j] as int].z
        <= nodes[t[k] as int].z by {
        assert(t[j] == l[a + j] && t[k] == l[a + k]);
    }
}

/// A list that stands by ascending key does so run by run, whatever the
/// length of the runs.
pub proof fn lemma_runs_of_sorted(nodes: Seq<Node>, l: Seq<usize>, s: int)
    requires
        by_key(nodes, l),
    ensures
        runs_by_key(nodes, l, s),
    decreases l.len(),
{
    if l.len() > s && s > 0 {
        lemma_part_by_key(nodes, l, 0, s);
        lemma_part_by_key(nodes, l, s, l.len() as int);
        lemma_runs_of_sorted(nodes, l.subrange(s, l.len() as int), s);
    }
}

/// Runs of one node stand by ascending key.
pub proof fn lemma_runs_of_one(nodes: Seq<Node>, l: Seq<usize>)
    ensures
        runs_by_key(nodes, l, 1),
    decreases l.len(),
{
    if l.len() > 1 {
        lemma_runs_of_one(nodes, l.subrange(1, l.len() as int));
    }
}

/// One pass makes runs of twice the length, and keeps the nodes.
pub proof fn lemma_pass_runs(nodes: Seq<Node>, l: Seq<usize>, s: int)
    requires
        s >= 1,
        runs_by_key(nodes, l, s),
    ensures
        runs_by_key(nodes, merge_pass(nodes, l, s), 2 * s),
        merge_pass(nodes, l, s).len() == l.len(),
        merge_pass(nodes, l, s).to_multiset() == l.to_multiset(),
    decreases l.len(),
{
    broadcast use vstd::multiset::group_multiset_axioms;

    let n = l.len() as int;
    if n > 0 {
        let a = least_of(s, n);
        let b = least_of(a + s, n);
        let p = l.subrange(0, a);
        let q = l.subrange(a, b);
        let r = l.subrange(b, n);
        let m = merge_by_key(nodes, p, q);
        let t = merge_pass(nodes, r, s);
        let w = merge_pass(nodes, l, s);
        if n <= s {
            assert(p =~= l);
            assert(by_key(nodes, q));
            assert(runs_by_key(nodes, r, s));
        } else {
            let from_s = l.subrange(s, n);
            assert(by_key(nodes, l.subrange(0, s)));
            assert(runs_by_key(nodes, from_s, s));
            if n <= 2 * s {
                assert(q =~= from_s);
                assert(by_key(nodes, from_s));
                assert(r.len() == 0);
                assert(runs_by_key(nodes, r, s));
            } else {
                assert(q =~= from_s.subrange(0, s));
                assert(r =~= from_s.subrange(s, from_s.len() as int));
                assert(by_key(nodes, from_s.subrange(0, s)));
                assert(runs_by_key(nodes, from_s.subrange(s, from_s.len() as int), s));
            }
        }
        assert(by_key(nodes, p));
        assert(by_key(nodes, q));
        assert(runs_by_key(nodes, r, s));
        lemma_merge_by_key(nodes, p, q);
        lemma_merge_has_all(nodes, p, q);
        lemma_pass_runs(nodes, r, s);
        if n <= 2 * s {
            assert(t.len() == 0);
            assert(w =~= m);
        } else {
            assert(w.subrange(0, 2 * s) =~= m);
            assert(w.subrange(2 * s, w.len() as int) =~= t);
        }
        vstd::seq_lib::lemma_multiset_commutative(m, t);
        vstd::seq_lib::lemma_multiset_commutative(p, q);
        vstd::seq_lib::lemma_multiset_commutative(p + q, r);
        assert(p + q + r =~= l);
        assert(w.to_multiset() =~= l.to_multiset());
    }
}

/// One merge is enough where the list is no longer than two runs.
pub proof fn lemma_one_merge(len: int, s: int)
    requires
        s >= 1,
        merge_count(len, s) <= 1,
    ensures
        len <= 2 * s,
{
    if len > 2 * s {
        assert(merge_count(len, s) == 1 + merge_count(len - 2 * s, s));
        assert(merge_count(len - 2 * s, s) == 1 + merge_count(
            len - 2 * s - least_of(2 * s, len - 2 * s),
            s,
        ));
    }
}

/// Whether `l` is the z-order list from `head`: a chain from `head` to the
/// end in which each node is linked back to the node before it.
pub open spec fn z_list(nodes: Seq<Node>, head: Option<usize>, l: Seq<usize>) -> bool {
    &&& z_chain(nodes, head, l, None)
    &&& forall|k: int| 0 <= k < l.len() ==> #[trigger] z_back(nodes, l, k)
}

/// The arena after the list that was put together was closed behind its
/// tail.
pub open spec fn closed_list(nodes: Seq<Node>, tail: Option<usize>) -> Seq<Node> {
    match tail {
        Some(t) => nodes.update(t as int, Node { next_z_i: None, ..nodes[t as int] }),
        None => nodes,
    }
}

/// A list that was put together and closed behind its tail is a z-order
/// list.
pub proof fn lemma_closed_list(nodes: Seq<Node>, head: Option<usize>, tail: Option<usize>, o: Seq<usize>)
    requires
        z_out(nodes, head, tail, o),
    ensures
        z_list(closed_list(nodes, tail), head, o),
        same_but_z(nodes, closed_list(nodes, tail)),
{
    let after = closed_list(nodes, tail);
    let n = o.len() as int;
    if n > 0 {
        assert(1 <= o[n - 1] < nodes.len());
    }
    assert(after.len() == nodes.len());
    assert forall|k: int| 0 <= k < n implies #[trigger] z_link(after, o, k, None) by {
        assert(1 <= o[k] < nodes.len());
        if k < n - 1 {
            assert(z_link(nodes, o, k, None));
            assert(o[k] != o[n - 1]);
        }
    }
    assert forall|k: int| 0 <= k < n implies #[trigger] z_back(after, o, k) by {
        assert(z_back(nodes, o, k));
        assert(1 <= o[k] < nodes.len());
    }
    assert forall|j: int| 0 <= j < nodes.len() implies #[trigger] after[j] == (Node {
        prev_z_i: after[j].prev_z_i,
        next_z_i: after[j].next_z_i,
        ..nodes[j]
    }) by {}
}

/// Runs that stand by ascending key do so in any arena with the same keys.
pub proof fn lemma_runs_same_keys(before: Seq<Node>, after: Seq<Node>, l: Seq<usize>, s: int)
    requires
        same_but_z(before, after),
        distinct_nodes(before, l),
        runs_by_key(before, l, s),
    ensures
        runs_by_key(after, l, s),
    decreases l.len(),
{
    if l.len() <= s || s <= 0 {
        lemma_by_key_same_keys(before, after, l);
    } else {
        lemma_part_distinct(before, l, 0, s);
        lemma_part_distinct(before, l, s, l.len() as int);
        lemma_by_key_same_keys(before, after, l.subrange(0, s));
        lemma_runs_same_keys(before, after, l.subrange(s, l.len() as int), s);
    }
}

/// A list that stands by ascending key does so in any arena with the same
/// keys.
pub proof fn lemma_by_key_same_keys(before: Seq<Node>, after: Seq<Node>, l: Seq<usize>)
    requires
        same_but_z(before, after),
        distinct_nodes(before, l),
        by_key(before, l),
    ensures
        by_key(after, l),
{
    assert forall|j: int, k: int| 0 <= j < k < l.len() implies after[l[j] as int].z
        <= after[l[k] as int].z by {
        assert(1 <= l[j] < before.len() && 1 <= l[k] < before.len());
        assert(after[l[j] as int].z == before[l[j] as int].z);
        assert(after[l[k] as int].z == before[l[k] as int].z);
        assert(before[l[j] as int].z <= before[l[k] as int].z);
    }
}

/// Different nodes of the arena are fewer than the arena has nodes.
pub proof fn lemma_distinct_fits(nodes: Seq<Node>, s: Seq<usize>)
    requires
        nodes.len() >= 1,
        distinct_nodes(nodes, s),
    ensures
        s.len() < nodes.len(),
{
    let numbers = Seq::new(s.len(), |k: int| s[k] as int);
    assert(numbers.no_duplicates()) by {
        assert forall|a: int, b: int|
            0 <= a < numbers.len() && 0 <= b < numbers.len() && a != b implies numbers[a]
            != numbers[b] by {
            if a < b {
                assert(s[a] != s[b]);
            } else {
                assert(s[b] != s[a]);
            }
        }
    }
    numbers.unique_seq_to_set();
    let range = vstd::set_lib::set_int_range(1, nodes.len() as int);
    vstd::set_lib::lemma_int_range(1, nodes.len() as int);
    assert(numbers.to_set().subset_of(range)) by {
        assert forall|v: int| numbers.to_set().contains(v) implies range.contains(v) by {
            let k = choose|k: int| 0 <= k < numbers.len() && numbers[k] == v;
            assert(1 <= s[k] < nodes.len());
        }
    }
    vstd::set_lib::lemma_len_subset(numbers.to_set(), range);
}

/// Whether `l` is the z-order list of the arena `after`, stands by
/// ascending key, and has the nodes of `from`.
pub open spec fn sorted_list(after: Seq<Node>, l: Seq<usize>, from: Seq<usize>) -> bool {
    &&& z_list(after, start_of(l), l)
    &&& by_key(after, l)
    &&& l.to_multiset() == from.to_multiset()
}

/// The passes of the sort, from runs of `in_size` nodes on, leave the list
/// with the same nodes by ascending key, and nodes with the same key in the
/// order in which they stood.
pub proof fn lemma_sorted_from(
    nodes: Seq<Node>,
    list: Option<usize>,
    l: Seq<usize>,
    in_size: usize,
    n: usize,
)
    requires
        z_chain(nodes, list, l, None),
        runs_by_key(nodes, l, in_size as int),
        1 <= in_size <= n,
        n == nodes.len(),
    ensures
        exists|l2: Seq<usize>|
            sorted_list(sorted_from(nodes, list, in_size, n), l2, l) && ties_kept(nodes, l, l2),
        same_but_z(nodes, sorted_from(nodes, list, in_size, n)),
    decreases n - in_size,
{
    let s = in_size as int;
    let none: Seq<usize> = Seq::empty();
    lemma_distinct_fits(nodes, l);
    assert(z_out(nodes, None, None, none));
    lemma_pass(nodes, list, l, none, in_size, None, None, 0, n as nat);
    let (n1, head, tail, merges) = pass(nodes, list, in_size, None, None, 0, n as nat);
    let o = merge_pass(nodes, l, s);
    assert(none + o =~= o);
    lemma_pass_runs(nodes, l, s);
    lemma_closed_list(n1, head, tail, o);
    let n2 = closed_list(n1, tail);
    lemma_same_but_z_chain(nodes, n1, n2);
    assert(distinct_nodes(nodes, o));
    assert(head == start_of(o));
    lemma_pass_keeps_ties(nodes, l, s);
    if merges <= 1 || in_size >= n || in_size == 0 {
        if merges <= 1 {
            lemma_one_merge(l.len() as int, s);
        }
        assert(by_key(nodes, o));
        lemma_by_key_same_keys(nodes, n2, o);
        assert(sorted_from(nodes, list, in_size, n) == n2);
        assert(sorted_list(n2, o, l) && ties_kept(nodes, l, o));
    } else {
        let s2 = doubled(in_size, n);
        if in_size > n - in_size {
            assert(by_key(nodes, o));
            lemma_runs_of_sorted(nodes, o, s2 as int);
        }
        lemma_runs_same_keys(nodes, n2, o, s2 as int);
        lemma_sorted_from(n2, head, o, s2, n);
        let after = sorted_from(n2, head, s2, n);
        let l2 = choose|l2: Seq<usize>| sorted_list(after, l2, o) && ties_kept(n2, o, l2);
        assert(sorted_from(nodes, list, in_size, n) == after);
        assert(sorted_list(after, l2, l));
        lemma_same_but_z_chain(nodes, n2, after);
        assert forall|k: int| 0 <= k < l2.len() implies 0 <= #[trigger] l2[k] < nodes.len() by {
            broadcast use vstd::seq_lib::group_to_multiset_ensures;

            assert(l2.contains(l2[k]));
            assert(l2.to_multiset().count(l2[k]) > 0);
            assert(o.to_multiset().count(l2[k]) > 0);
            assert(o.contains(l2[k]));
            let c = choose|c: int| 0 <= c < o.len() && o[c] == l2[k];
            assert(1 <= o[c] < nodes.len());
        }
        lemma_ties_same_keys(nodes, n2, o, l2);
        lemma_ties_chain(nodes, l, o, l2);
        assert(sorted_list(after, l2, l) && ties_kept(nodes, l, l2));
    }
}

/// The sort leaves a z-order list with the same nodes by ascending key, in
/// which nodes with the same key stand in the order in which they stood,
/// and changes nothing but the z-order links.
pub proof fn lemma_sorted(nodes: Seq<Node>, list: usize, l: Seq<usize>)
    requires
        nodes.len() <= usize::MAX,
        z_chain(nodes, Some(list), l, None),
    ensures
        exists|l2: Seq<usize>| sorted_list(sorted(nodes, list), l2, l) && ties_kept(nodes, l, l2),
        same_but_z(nodes, sorted(nodes, list)),
{
    lemma_runs_of_one(nodes, l);
    assert(1 <= l[0] < nodes.len());
    let n = nodes.len() as usize;
    lemma_sorted_from(nodes, Some(list), l, 1, n);
    let after = sorted_from(nodes, Some(list), 1, n);
    let l2 = choose|l2: Seq<usize>| sorted_list(after, l2, l) && ties_kept(nodes, l, l2);
    assert(sorted(nodes, list) == after);
    assert(sorted_list(sorted(nodes, list), l2, l) && ties_kept(nodes, l, l2));
}

/// The arena in which the first `j` nodes of the ring have their keys and
/// are linked, in z-order, to their ring neighbours.
pub open spec fn keyed_upto(
    nodes: Seq<Node>,
    r: Seq<usize>,
    j: int,
    min_x: i32,
    min_y: i32,
    size: i64,
) -> Seq<Node>
    decreases j,
{
    if j <= 0 {
        nodes
    } else {
        keyed_upto(nodes, r, j - 1, min_x, min_y, size).update(
            r[j - 1] as int,
            keyed(nodes[r[j - 1] as int], min_x, min_y, size),
        )
    }
}

/// What the arena holds when the first `j` nodes of the ring are keyed.
pub proof fn lemma_keyed_upto(
    nodes: Seq<Node>,
    r: Seq<usize>,
    j: int,
    min_x: i32,
    min_y: i32,
    size: i64,
)
    requires
        is_ring(nodes, r),
        0 <= j <= r.len(),
    ensures
        keyed_upto(nodes, r, j, min_x, min_y, size).len() == nodes.len(),
        forall|k: int|
            0 <= k < j ==> keyed_upto(nodes, r, j, min_x, min_y, size)[#[trigger] r[k] as int]
                == keyed(nodes[r[k] as int], min_x, min_y, size),
        forall|k: int|
            j <= k < r.len() ==> keyed_upto(nodes, r, j, min_x, min_y, size)[#[trigger] r[k] as int]
                == nodes[r[k] as int],
        forall|v: int|
            0 <= v < nodes.len() ==> (#[trigger] keyed_upto(nodes, r, j, min_x, min_y, size)[v]).prev_i
                == nodes[v].prev_i && keyed_upto(nodes, r, j, min_x, min_y, size)[v].next_i
                == nodes[v].next_i && keyed_upto(nodes, r, j, min_x, min_y, size)[v].x
                == nodes[v].x && keyed_upto(nodes, r, j, min_x, min_y, size)[v].y == nodes[v].y,
    decreases j,
{
    if j > 0 {
        lemma_keyed_upto(nodes, r, j - 1, min_x, min_y, size);
        let before_j = keyed_upto(nodes, r, j - 1, min_x, min_y, size);
        let now = keyed_upto(nodes, r, j, min_x, min_y, size);
        assert(1 <= r[j - 1] < nodes.len());
        assert forall|k: int| 0 <= k < j implies now[#[trigger] r[k] as int] == keyed(
            nodes[r[k] as int],
            min_x,
            min_y,
            size,
        ) by {
            assert(1 <= r[k] < nodes.len());
            if k < j - 1 {
                assert(r[k] != r[j - 1]);
            }
        }
        assert forall|k: int| j <= k < r.len() implies now[#[trigger] r[k] as int]
            == nodes[r[k] as int] by {
            assert(1 <= r[k] < nodes.len());
            assert(r[j - 1] != r[k]);
        }
    }
}

/// On a ring, the walk that keys the nodes keys every node from position
/// `j` on and ends where it started.
pub proof fn lemma_keyed_walk(
    nodes: Seq<Node>,
    r: Seq<usize>,
    j: int,
    min_x: i32,
    min_y: i32,
    size: i64,
    fuel: nat,
)
    requires
        is_ring(nodes, r),
        0 <= j < r.len(),
        fuel >= r.len() - j,
    ensures
        keyed_from(
            keyed_upto(nodes, r, j, min_x, min_y, size),
            r[j],
            r[0],
            min_x,
            min_y,
            size,
            fuel,
        ) == (keyed_upto(nodes, r, r.len() as int, min_x, min_y, size), r[0]),
    decreases r.len() - j,
{
    let n = r.len() as int;
    let cur = keyed_upto(nodes, r, j, min_x, min_y, size);
    lemma_keyed_upto(nodes, r, j, min_x, min_y, size);
    assert(ring_link(nodes, r, j));
    assert(cur[r[j] as int] == nodes[r[j] as int]);
    assert(cur.update(r[j] as int, keyed(cur[r[j] as int], min_x, min_y, size)) == keyed_upto(
        nodes,
        r,
        j + 1,
        min_x,
        min_y,
        size,
    ));
    if j + 1 < n {
        assert(r[0] != r[j + 1]);
        lemma_keyed_walk(nodes, r, j + 1, min_x, min_y, size, (fuel - 1) as nat);
    }
}

/// Indexing a ring makes a z-order list of the nodes of the ring, by
/// ascending key; nodes with the same key stand in it as they stand in the
/// ring from the node on at which the indexing started. Every node of the
/// ring has its key, unless it had another before, and nothing but keys and
/// z-order links is changed.
pub proof fn lemma_indexed_ring(nodes: Seq<Node>, r: Seq<usize>, min_x: i32, min_y: i32, size: i64)
    requires
        nodes.len() <= usize::MAX,
        is_ring(nodes, r),
    ensures
        ({
            let after = indexed(nodes, r[0], min_x, min_y, size);
            &&& exists|l: Seq<usize>| sorted_list(after, l, r) && ties_kept(after, r, l)
            &&& is_ring(after, r)
            &&& after.len() == nodes.len()
            &&& forall|v: int|
                0 <= v < nodes.len() ==> (#[trigger] after[v]).prev_i == nodes[v].prev_i
                    && after[v].next_i == nodes[v].next_i && after[v].x == nodes[v].x
                    && after[v].y == nodes[v].y
            &&& forall|k: int|
                0 <= k < r.len() ==> after[#[trigger] r[k] as int].z == (if nodes[r[k] as int].z
                    == 0 {
                    z_key(nodes[r[k] as int].x, nodes[r[k] as int].y, min_x, min_y, size)
                } else {
                    nodes[r[k] as int].z
                })
        }),
{
    let n = r.len() as int;
    lemma_ring_fits(nodes, r);
    lemma_keyed_walk(nodes, r, 0, min_x, min_y, size, nodes.len());
    let all = keyed_upto(nodes, r, n, min_x, min_y, size);
    lemma_keyed_upto(nodes, r, n, min_x, min_y, size);
    let open_list = opened(all, r[0]);
    assert(ring_link(nodes, r, 0));
    assert(1 <= r[0] < nodes.len());
    assert(1 <= r[n - 1] < nodes.len());
    assert(all[r[0] as int].prev_z_i == Some(r[n - 1]));
    assert(open_list.len() == all.len());
    assert(z_chain(open_list, Some(r[0]), r, None)) by {
        assert forall|k: int| 0 <= k < n implies #[trigger] z_link(open_list, r, k, None) by {
            assert(ring_link(nodes, r, k));
            assert(1 <= r[k] < nodes.len());
            assert(all[r[k] as int] == keyed(nodes[r[k] as int], min_x, min_y, size));
            if k < n - 1 {
                assert(r[k] != r[n - 1]);
            }
        }
    }
    lemma_sorted(open_list, r[0], r);
    let after = sorted(open_list, r[0]);
    let l = choose|l: Seq<usize>| sorted_list(after, l, r) && ties_kept(open_list, r, l);
    assert(indexed(nodes, r[0], min_x, min_y, size) == after);
    assert(sorted_list(after, l, r));
    assert forall|i: int, j: int| 0 <= i < j < l.len() implies #[trigger] tie_kept(
        after,
        r,
        l,
        i,
        j,
    ) by {
        assert(1 <= l[i] < after.len() && 1 <= l[j] < after.len());
        assert(after[l[i] as int].z == open_list[l[i] as int].z);
        assert(after[l[j] as int].z == open_list[l[j] as int].z);
        assert(tie_kept(open_list, r, l, i, j));
    }
    assert(sorted_list(after, l, r) && ties_kept(after, r, l));
    assert forall|k: int| 0 <= k < n implies #[trigger] ring_link(after, r, k) by {
        assert(ring_link(nodes, r, k));
        assert(1 <= r[k] < nodes.len());
        assert(all[r[k] as int] == keyed(nodes[r[k] as int], min_x, min_y, size));
        assert(after[r[k] as int] == (Node {
            prev_z_i: after[r[k] as int].prev_z_i,
            next_z_i: after[r[k] as int].next_z_i,
            ..open_list[r[k] as int]
        }));
    }
    assert forall|v: int| 0 <= v < nodes.len() implies (#[trigger] after[v]).prev_i
        == nodes[v].prev_i && after[v].next_i == nodes[v].next_i && after[v].x == nodes[v].x
        && after[v].y == nodes[v].y by {
        assert(all[v].prev_i == nodes[v].prev_i);
        assert(all[v].x == nodes[v].x && all[v].y == nodes[v].y);
        assert(open_list[v].prev_i == all[v].prev_i && open_list[v].next_i == all[v].next_i);
        assert(open_list[v].x == all[v].x && open_list[v].y == all[v].y);
        assert(after[v] == (Node {
            prev_z_i: after[v].prev_z_i,
            next_z_i: after[v].next_z_i,
            ..open_list[v]
        }));
    }
    assert forall|k: int| 0 <= k < n implies after[#[trigger] r[k] as int].z == (if nodes[r[k] as int].z
        == 0 {
        z_key(nodes[r[k] as int].x, nodes[r[k] as int].y, min_x, min_y, size)
    } else {
        nodes[r[k] as int].z
    }) by {
        assert(1 <= r[k] < nodes.len());
        assert(all[r[k] as int] == keyed(nodes[r[k] as int], min_x, min_y, size));
        assert(after[r[k] as int] == (Node {
            prev_z_i: after[r[k] as int].prev_z_i,
            next_z_i: after[r[k] as int].next_z_i,
            ..open_list[r[k] as int]
        }));
    }
}

/// Whether a node of the list at or below position `j`, with a key of at
/// least `min_z`, stands in the way of the ear.
pub open spec fn blocked_below(nodes: Seq<Node>, l: Seq<usize>, ear: usize, min_z: i32, j: int) -> bool {
    exists|i: int| 0 <= i <= j && i < l.len() && nodes[l[i] as int].z >= min_z && z_blocks(nodes, ear, l[i])
}

/// Whether a node of the list at or above position `j`, with a key of at
/// most `max_z`, stands in the way of the ear.
pub open spec fn blocked_above(nodes: Seq<Node>, l: Seq<usize>, ear: usize, max_z: i32, j: int) -> bool {
    exists|i: int| 0 <= j <= i < l.len() && nodes[l[i] as int].z <= max_z && z_blocks(nodes, ear, l[i])
}

/// The node at position `j` of the list, if the list has that position.
pub open spec fn list_at(l: Seq<usize>, j: int) -> Option<usize> {
    if 0 <= j < l.len() {
        Some(l[j])
    } else {
        None
    }
}

/// In a list by ascending key, the search towards lesser keys finds a node
/// in the way if and only if there is one with a key of at least `min_z`.
pub proof fn lemma_scan_down(
    nodes: Seq<Node>,
    l: Seq<usize>,
    ear: usize,
    min_z: i32,
    j: int,
    fuel: nat,
)
    requires
        z_list(nodes, start_of(l), l),
        by_key(nodes, l),
        -1 <= j < l.len(),
        fuel >= j + 1,
    ensures
        scan_down(nodes, ear, min_z, list_at(l, j), fuel) == blocked_below(nodes, l, ear, min_z, j),
    decreases j + 1,
{
    if j >= 0 {
        assert(z_back(nodes, l, j));
        assert(1 <= l[j] < nodes.len());
        assert(nodes[l[j] as int].prev_z_i == list_at(l, j - 1));
        lemma_scan_down(nodes, l, ear, min_z, j - 1, (fuel - 1) as nat);
        if nodes[l[j] as int].z >= min_z {
            if z_blocks(nodes, ear, l[j]) {
                assert(blocked_below(nodes, l, ear, min_z, j));
            } else if blocked_below(nodes, l, ear, min_z, j - 1) {
                let i = choose|i: int|
                    0 <= i <= j - 1 && i < l.len() && nodes[l[i] as int].z >= min_z && z_blocks(
                        nodes,
                        ear,
                        l[i],
                    );
                assert(0 <= i <= j && i < l.len() && nodes[l[i] as int].z >= min_z && z_blocks(
                    nodes,
                    ear,
                    l[i],
                ));
            } else {
                assert forall|i: int| 0 <= i <= j && i < l.len() implies !(nodes[l[i] as int].z
                    >= min_z && z_blocks(nodes, ear, l[i])) by {
                    if i < j {
                        assert(!(0 <= i <= j - 1 && i < l.len() && nodes[l[i] as int].z >= min_z
                            && z_blocks(nodes, ear, l[i])));
                    }
                }
            }
        } else {
            assert forall|i: int| 0 <= i <= j && i < l.len() implies !(nodes[l[i] as int].z
                >= min_z && z_blocks(nodes, ear, l[i])) by {
                if i < j {
                    assert(nodes[l[i] as int].z <= nodes[l[j] as int].z);
                }
            }
        }
    }
}

/// In a list by ascending key, the search towards greater keys finds a
/// node in the way if and only if there is one with a key of at most
/// `max_z`.
pub proof fn lemma_scan_up(
    nodes: Seq<Node>,
    l: Seq<usize>,
    ear: usize,
    max_z: i32,
    j: int,
    fuel: nat,
)
    requires
        z_list(nodes, start_of(l), l),
        by_key(nodes, l),
        0 <= j <= l.len(),
        fuel >= l.len() - j,
    ensures
        scan_up(nodes, ear, max_z, list_at(l, j), fuel) == blocked_above(nodes, l, ear, max_z, j),
    decreases l.len() - j,
{
    if j < l.len() {
        assert(z_link(nodes, l, j, None));
        assert(1 <= l[j] < nodes.len());
        assert(nodes[l[j] as int].next_z_i == list_at(l, j + 1));
        lemma_scan_up(nodes, l, ear, max_z, j + 1, (fuel - 1) as nat);
        if nodes[l[j] as int].z <= max_z {
            if z_blocks(nodes, ear, l[j]) {
                assert(blocked_above(nodes, l, ear, max_z, j));
            } else if blocked_above(nodes, l, ear, max_z, j + 1) {
                let i = choose|i: int|
                    0 <= j + 1 <= i < l.len() && nodes[l[i] as int].z <= max_z && z_blocks(
                        nodes,
                        ear,
                        l[i],
                    );
                assert(0 <= j <= i < l.len() && nodes[l[i] as int].z <= max_z && z_blocks(
                    nodes,
                    ear,
                    l[i],
                ));
            } else {
                assert forall|i: int| 0 <= j <= i < l.len() implies !(nodes[l[i] as int].z <= max_z
                    && z_blocks(nodes, ear, l[i])) by {
                    if i > j {
                        assert(!(0 <= j + 1 <= i < l.len() && nodes[l[i] as int].z <= max_z
                            && z_blocks(nodes, ear, l[i])));
                    }
                }
            }
        } else {
            assert forall|i: int| 0 <= j <= i < l.len() implies !(nodes[l[i] as int].z <= max_z
                && z_blocks(nodes, ear, l[i])) by {
                if i > j {
                    assert(nodes[l[j] as int].z <= nodes[l[i] as int].z);
                }
            }
        }
    }
}

/// In a list by ascending key, the search in both directions at once and
/// the two searches that finish it find a node in the way if and only if
/// there is one, below or above, with a key in the range.
pub proof fn lemma_scan_both(
    nodes: Seq<Node>,
    l: Seq<usize>,
    ear: usize,
    min_z: i32,
    max_z: i32,
    j: int,
    k: int,
    fuel: nat,
)
    requires
        z_list(nodes, start_of(l), l),
        by_key(nodes, l),
        -1 <= j < l.len(),
        0 <= k <= l.len(),
        nodes.len() > l.len(),
    ensures
        (match scan_both(nodes, ear, min_z, max_z, list_at(l, j), list_at(l, k), fuel) {
            None => true,
            Some((down, up)) => scan_down(nodes, ear, min_z, down, nodes.len()) || scan_up(
                nodes,
                ear,
                max_z,
                up,
                nodes.len(),
            ),
        }) == (blocked_below(nodes, l, ear, min_z, j) || blocked_above(nodes, l, ear, max_z, k)),
    decreases fuel,
{
    let down = list_at(l, j);
    let up = list_at(l, k);
    lemma_scan_down(nodes, l, ear, min_z, j, nodes.len());
    lemma_scan_up(nodes, l, ear, max_z, k, nodes.len());
    if fuel > 0 && j >= 0 && nodes[l[j] as int].z >= min_z && k < l.len() && nodes[l[k] as int].z
        <= max_z {
        assert(z_back(nodes, l, j));
        assert(z_link(nodes, l, k, None));
        assert(1 <= l[j] < nodes.len());
        assert(1 <= l[k] < nodes.len());
        assert(nodes[l[j] as int].prev_z_i == list_at(l, j - 1));
        assert(nodes[l[k] as int].next_z_i == list_at(l, k + 1));
        if z_blocks(nodes, ear, l[j]) {
            assert(blocked_below(nodes, l, ear, min_z, j));
        } else if z_blocks(nodes, ear, l[k]) {
            assert(blocked_above(nodes, l, ear, max_z, k));
        } else {
            lemma_scan_both(nodes, l, ear, min_z, max_z, j - 1, k + 1, (fuel - 1) as nat);
            lemma_scan_down(nodes, l, ear, min_z, j - 1, nodes.len());
            lemma_scan_up(nodes, l, ear, max_z, k + 1, nodes.len());
            assert(scan_down(nodes, ear, min_z, down, nodes.len()) == scan_down(
                nodes,
                ear,
                min_z,
                list_at(l, j - 1),
                (nodes.len() - 1) as nat,
            ));
            lemma_scan_down(nodes, l, ear, min_z, j - 1, (nodes.len() - 1) as nat);
            assert(scan_up(nodes, ear, max_z, up, nodes.len()) == scan_up(
                nodes,
                ear,
                max_z,
                list_at(l, k + 1),
                (nodes.len() - 1) as nat,
            ));
            lemma_scan_up(nodes, l, ear, max_z, k + 1, (nodes.len() - 1) as nat);
        }
    }
}

} // verus!
