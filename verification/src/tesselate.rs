//! The grid tesselator: every triangle that a grid line of one axis crosses
//! is cut along the lines, until no triangle reaches over a grid line.
//!
//! The cut is made on what is exact: where each vertex stands along the
//! axis, which corner of a triangle is cut, at which grid lines, and which
//! triangles the fan is made of. A new vertex is named by the edge that it
//! lies on and by its grid line; where it lies along the other axes is left
//! to the caller, who holds the coordinates.

use vstd::prelude::*;
use crate::geometry::mod2;

verus! {

/// A vertex as the cut along one axis sees it: where it stands along the
/// axis, and, for a vertex that a cut made, the two vertices whose edge it
/// lies on. A vertex that was handed in names itself, or anything.
#[derive(Clone, Copy, Debug, PartialEq, Eq)]
pub struct Site {
    /// Where the vertex stands along the axis.
    pub height: i32,
    /// The corner that the edge leaves.
    pub from: usize,
    /// The other end of the edge.
    pub to: usize,
}

/// Whether `v` is a vertex of the buffer.
pub open spec fn is_vertex(vertices: Seq<Site>, v: usize) -> bool {
    v < vertices.len()
}

/// Whether the index list holds whole triangles between vertices of the
/// buffer, which holds one site for each vertex.
pub open spec fn mesh_ok(vertices: Seq<Site>, indices: Seq<usize>) -> bool {
    &&& indices.len() % 3 == 0
    &&& forall|j: int| 0 <= j < indices.len() ==> is_vertex(vertices, #[trigger] indices[j])
}

/// Where the vertex `v` stands along the axis.
pub open spec fn coord(vertices: Seq<Site>, v: usize) -> i32 {
    vertices[v as int].height
}

/// Where the vertex `v` stands along the axis, as a number.
pub open spec fn at(vertices: Seq<Site>, v: usize) -> int {
    vertices[v as int].height as int
}

/// The least of three numbers.
pub open spec fn low3(a: int, b: int, c: int) -> int {
    if a <= b && a <= c {
        a
    } else if b <= c {
        b
    } else {
        c
    }
}

/// The greatest of three numbers.
pub open spec fn high3(a: int, b: int, c: int) -> int {
    if a >= b && a >= c {
        a
    } else if b >= c {
        b
    } else {
        c
    }
}

/// Where the triangle `a`, `b`, `c` starts along the axis.
pub open spec fn tri_low(vertices: Seq<Site>, a: usize, b: usize, c: usize) -> int {
    low3(at(vertices, a), at(vertices, b), at(vertices, c))
}

/// Where the triangle `a`, `b`, `c` ends along the axis.
pub open spec fn tri_high(vertices: Seq<Site>, a: usize, b: usize, c: usize) -> int {
    high3(at(vertices, a), at(vertices, b), at(vertices, c))
}

/// The number of grid lines that cross the triangle `a`,
/// `b`, `c`: those that lie strictly between its two ends.
pub open spec fn crossed(
    vertices: Seq<Site>,
    a: usize,
    b: usize,
    c: usize,
    m: int,
) -> int {
    lines_between(tri_low(vertices, a, b, c), tri_high(vertices, a, b, c), m)
}

/// Whether the triangle `p`, `q`, `r` is a triangle between vertices of the
/// buffer that no grid line crosses.
pub open spec fn piece_ok(
    vertices: Seq<Site>,
    p: usize,
    q: usize,
    r: usize,
    m: int,
) -> bool {
    &&& is_vertex(vertices, p)
    &&& is_vertex(vertices, q)
    &&& is_vertex(vertices, r)
    &&& crossed(vertices, p, q, r, m) == 0
}

/// Whether every triangle of the list from position `from` on is such a
/// triangle.
pub open spec fn pieces_ok(
    vertices: Seq<Site>,
    indices: Seq<usize>,
    from: int,
    m: int,
) -> bool {
    forall|j: int|
        from <= j && j + 3 <= indices.len() && (j - from) % 3 == 0 ==> piece_ok(
            vertices,
            #[trigger] indices[j],
            indices[j + 1],
            indices[j + 2],
            m,
        )
}

/// The distance between two numbers.
pub open spec fn distance(a: int, b: int) -> int {
    if a >= b {
        a - b
    } else {
        b - a
    }
}

/// The buffer with a new vertex where the edge from `i1` to `i2` meets the
/// grid line `split`.
pub open spec fn with_vertex(
    vertices: Seq<Site>,
    i1: usize,
    i2: usize,
    split: int,
) -> Seq<Site> {
    vertices.push(Site { height: split as i32, from: i1, to: i2 })
}

/// Whether the buffer `after` holds the sites of `before` unchanged, and
/// maybe more behind them.
pub open spec fn keeps(before: Seq<Site>, after: Seq<Site>) -> bool {
    &&& after.len() >= before.len()
    &&& forall|j: int| 0 <= j < before.len() ==> #[trigger] after[j] == before[j]
}

/// Whether the vertex `v` was cut well: it lies on a grid line, on an edge
/// between two vertices that stand before it in the buffer, behind the end
/// that the edge leaves and not behind its other end.
pub open spec fn cut_ok(sites: Seq<Site>, v: int, m: int) -> bool {
    let s = sites[v];
    &&& s.from < v
    &&& s.to < v
    &&& s.height as int % m == 0
    &&& on_the_way(sites[s.from as int].height, sites[s.to as int].height, s.height as int)
}

/// Whether every vertex from `from` on was cut well.
pub open spec fn cuts_ok(sites: Seq<Site>, from: int, m: int) -> bool {
    forall|v: int| from <= v < sites.len() ==> #[trigger] cut_ok(sites, v, m)
}

/// A buffer that keeps the sites of a buffer that keeps the sites of a
/// third keeps the sites of the third.
pub proof fn lemma_keeps_chain(first: Seq<Site>, second: Seq<Site>, third: Seq<Site>)
    requires
        keeps(first, second),
        keeps(second, third),
    ensures
        keeps(first, third),
{
    assert forall|j: int| 0 <= j < first.len() implies #[trigger] third[j] == first[j] by {
        assert(second[j] == first[j]);
    }
}

/// Vertices that were cut well behind vertices that were cut well were all
/// cut well.
pub proof fn lemma_cuts_chain(first: Seq<Site>, second: Seq<Site>, third: Seq<Site>, from: int, m: int)
    requires
        0 <= from <= first.len(),
        keeps(first, second),
        keeps(second, third),
        cuts_ok(second, first.len() as int, m) || second.len() == first.len(),
        cuts_ok(second, from, m) || from == first.len(),
        cuts_ok(third, second.len() as int, m),
    ensures
        keeps(first, third),
        cuts_ok(third, from, m),
{
    assert forall|j: int| 0 <= j < first.len() implies #[trigger] third[j] == first[j] by {
        assert(second[j] == first[j]);
    }
    assert forall|v: int| from <= v < third.len() implies #[trigger] cut_ok(third, v, m) by {
        if v < second.len() {
            assert(cut_ok(second, v, m));
            assert(third[v] == second[v]);
            assert(third[second[v].from as int] == second[second[v].from as int]);
            assert(third[second[v].to as int] == second[second[v].to as int]);
        }
    }
}

/// Whether `split` lies on the way from `v1` to a different `v2`.
pub open spec fn on_the_way(v1: i32, v2: i32, split: int) -> bool {
    (v1 < split <= v2) || (v2 <= split < v1)
}

/// The number of grid lines, multiples of `m`, that lie strictly between
/// `lo` and `hi`.
pub open spec fn lines_between(lo: int, hi: int, m: int) -> int {
    if lo < hi {
        (hi - 1) / m - lo / m
    } else {
        0
    }
}

/// A number lies in the cell of the grid that its quotient names.
pub proof fn lemma_cell_of(x: int, m: int)
    requires
        m > 0,
    ensures
        (x / m) * m <= x < (x / m) * m + m,
{
    vstd::arithmetic::div_mod::lemma_fundamental_div_mod(x, m);
    vstd::arithmetic::div_mod::lemma_mod_bound(x, m);
    assert((x / m) * m == m * (x / m)) by (nonlinear_arith);
}

/// The quotient of a number names the cell of the grid that it lies in.
pub proof fn lemma_in_cell(x: int, m: int, k: int)
    requires
        m > 0,
        k * m <= x < k * m + m,
    ensures
        x / m == k,
{
    vstd::arithmetic::div_mod::lemma_fundamental_div_mod_converse_div(x, m, k, x - k * m);
    assert(m * k == k * m) by (nonlinear_arith);
}

/// The quotient by the spacing does not fall when the number grows.
pub proof fn lemma_cells_ordered(x: int, y: int, m: int)
    requires
        m > 0,
        x <= y,
    ensures
        x / m <= y / m,
{
    vstd::arithmetic::div_mod::lemma_div_is_ordered(x, y, m);
}

/// A grid line is the lower end of the cell that it names.
pub proof fn lemma_line_cell(g: int, m: int)
    requires
        m > 0,
        g % m == 0,
    ensures
        (g / m) * m == g,
        (g - 1) / m == g / m - 1,
        (g + m) / m == g / m + 1,
        (g + m) % m == 0,
        (g - m) % m == 0,
        (g - m) / m == g / m - 1,
{
    vstd::arithmetic::div_mod::lemma_fundamental_div_mod(g, m);
    let k = g / m;
    assert(k * m == m * k) by (nonlinear_arith);
    assert((k - 1) * m == k * m - m) by (nonlinear_arith);
    assert((k + 1) * m == k * m + m) by (nonlinear_arith);
    lemma_in_cell(g - 1, m, k - 1);
    lemma_in_cell(g + m, m, k + 1);
    lemma_in_cell(g - m, m, k - 1);
    vstd::arithmetic::div_mod::lemma_fundamental_div_mod(g + m, m);
    vstd::arithmetic::div_mod::lemma_fundamental_div_mod(g - m, m);
    assert(m * (k + 1) == k * m + m) by (nonlinear_arith);
    assert(m * (k - 1) == k * m - m) by (nonlinear_arith);
}

/// No grid line lies strictly inside a span that fits in one cell.
pub proof fn lemma_span_in_cell(lo: int, hi: int, g: int, m: int)
    requires
        m > 0,
        g % m == 0,
        g <= lo,
        hi <= g + m,
    ensures
        lines_between(lo, hi, m) == 0,
{
    if lo < hi {
        lemma_line_cell(g, m);
        let k = g / m;
        lemma_cell_of(lo, m);
        lemma_cell_of(hi - 1, m);
        lemma_cells_ordered(g, lo, m);
        lemma_cells_ordered(lo, hi - 1, m);
        lemma_in_cell(g + m - 1, m, k);
        lemma_cells_ordered(hi - 1, g + m - 1, m);
    }
}

/// A span that no grid line crosses is no longer than the spacing.
pub proof fn lemma_uncrossed_span(lo: int, hi: int, m: int)
    requires
        m > 0,
        lines_between(lo, hi, m) == 0,
    ensures
        hi - lo <= m,
{
    if hi - lo > m {
        lemma_cells_ordered(lo + m, hi - 1, m);
        vstd::arithmetic::div_mod::lemma_div_plus_one(lo, m);
        assert(m + lo == lo + m);
    }
}

/// The number of lines between two numbers is not negative, and does not
/// grow when the span shrinks.
pub proof fn lemma_lines_shrink(lo: int, hi: int, lo2: int, hi2: int, m: int)
    requires
        m > 0,
        lo <= lo2,
        hi2 <= hi,
    ensures
        0 <= lines_between(lo2, hi2, m) <= lines_between(lo, hi, m),
{
    if lo2 < hi2 {
        lemma_cells_ordered(lo, lo2, m);
        lemma_cells_ordered(hi2 - 1, hi - 1, m);
        lemma_cells_ordered(lo2, hi2 - 1, m);
    } else if lo < hi {
        lemma_cells_ordered(lo, hi - 1, m);
    }
}

/// The first grid line above a number and the last grid line below it.
pub proof fn lemma_next_lines(c: int, m: int)
    requires
        m > 0,
    ensures
        (c + m - c % m) % m == 0,
        (c + m - c % m) / m == c / m + 1,
        c < c + m - c % m <= c + m,
        (c - (if c % m == 0 { m } else { c % m })) % m == 0,
        (c - (if c % m == 0 { m } else { c % m })) / m == (c - 1) / m,
        c - m <= c - (if c % m == 0 { m } else { c % m }) < c,
{
    vstd::arithmetic::div_mod::lemma_fundamental_div_mod(c, m);
    vstd::arithmetic::div_mod::lemma_mod_bound(c, m);
    let k = c / m;
    assert(m * k == k * m) by (nonlinear_arith);
    assert((k + 1) * m == k * m + m) by (nonlinear_arith);
    assert((k - 1) * m == k * m - m) by (nonlinear_arith);
    let up = c + m - c % m;
    assert(up == (k + 1) * m);
    vstd::arithmetic::div_mod::lemma_mod_multiples_basic(k + 1, m);
    lemma_in_cell(up, m, k + 1);
    if c % m == 0 {
        vstd::arithmetic::div_mod::lemma_mod_multiples_basic(k - 1, m);
        lemma_in_cell(c - m, m, k - 1);
        lemma_in_cell(c - 1, m, k - 1);
    } else {
        vstd::arithmetic::div_mod::lemma_mod_multiples_basic(k, m);
        lemma_in_cell(c - c % m, m, k);
        lemma_in_cell(c - 1, m, k);
    }
}

/// Triangles that no grid line crosses are not crossed either when
/// vertices are pushed to the buffer.
pub proof fn lemma_pieces_kept(
    before: Seq<Site>,
    after: Seq<Site>,
    indices: Seq<usize>,
    from: int,
    m: int,
)
    requires
        keeps(before, after),
        pieces_ok(before, indices, from, m),
    ensures
        pieces_ok(after, indices, from, m),
{
    assert forall|j: int| from <= j && j + 3 <= indices.len() && (j - from) % 3 == 0 implies piece_ok(
        after,
        #[trigger] indices[j],
        indices[j + 1],
        indices[j + 2],
        m,
    ) by {
        let p = indices[j];
        let q = indices[j + 1];
        let r = indices[j + 2];
        assert(piece_ok(before, p, q, r, m));
        assert(at(after, p) == at(before, p));
        assert(at(after, q) == at(before, q));
        assert(at(after, r) == at(before, r));
    }
}

/// A triangle that no grid line crosses, pushed behind such triangles, makes
/// one more.
pub proof fn lemma_piece_pushed(
    vertices: Seq<Site>,
    indices: Seq<usize>,
    from: int,
    p: usize,
    q: usize,
    r: usize,
    m: int,
)
    requires
        0 <= from <= indices.len(),
        (indices.len() - from) % 3 == 0,
        pieces_ok(vertices, indices, from, m),
        piece_ok(vertices, p, q, r, m),
    ensures
        pieces_ok(vertices, indices.push(p).push(q).push(r), from, m),
{
    let longer = indices.push(p).push(q).push(r);
    assert forall|j: int| from <= j && j + 3 <= longer.len() && (j - from) % 3 == 0 implies piece_ok(
        vertices,
        #[trigger] longer[j],
        longer[j + 1],
        longer[j + 2],
        m,
    ) by {
        if j + 3 <= indices.len() {
            assert(longer[j] == indices[j]);
            assert(longer[j + 1] == indices[j + 1]);
            assert(longer[j + 2] == indices[j + 2]);
        } else {
            assert(j == indices.len());
        }
    }
}

/// Pushes a new vertex where the edge from `i1` to `i2` meets the grid line
/// `split`, and returns its number. The vertex names the edge that it lies
/// on.
pub fn create_vertex(
    split: i64,
    i1: usize,
    i2: usize,
    v1: i32,
    v2: i32,
    vertices: &mut Vec<Site>,
) -> (index: usize)
    requires
        is_vertex(old(vertices)@, i1),
        is_vertex(old(vertices)@, i2),
        v1 == coord(old(vertices)@, i1),
        v2 == coord(old(vertices)@, i2),
        on_the_way(v1, v2, split as int),
    ensures
        final(vertices)@ == with_vertex(old(vertices)@, i1, i2, split as int),
        keeps(old(vertices)@, final(vertices)@),
        final(vertices).len() == old(vertices).len() + 1,
        index == old(vertices).len(),
        is_vertex(final(vertices)@, index),
        coord(final(vertices)@, index) == split,
        forall|m: int| m > 0 && split as int % m == 0 ==> cuts_ok(
            final(vertices)@,
            old(vertices).len() as int,
            m,
        ),
{
    let index: usize = vertices.len();
    vertices.push(Site { height: split as i32, from: i1, to: i2 });
    proof {
        assert forall|m: int| m > 0 && split as int % m == 0 implies cuts_ok(
            vertices@,
            old(vertices).len() as int,
            m,
        ) by {
            assert(cut_ok(vertices@, old(vertices).len() as int, m));
        }
    }
    index
}

/// The next grid line behind `mp`, upwards or downwards.
pub open spec fn stepped(up: bool, mp: int, modulo: i32) -> int {
    if up {
        mp + modulo
    } else {
        mp - modulo
    }
}

/// Whether the grid line `mp` lies before `limit`, upwards or downwards.
pub open spec fn before(up: bool, mp: int, limit: int) -> bool {
    if up {
        mp < limit
    } else {
        mp > limit
    }
}

/// The corner and the two edges that a fan of triangles is cut from: the
/// corner `i1` and the ends `i2` and `i3` of the edges that leave it, with
/// their coordinates along the axis.
#[derive(Clone, Copy, Debug)]
pub struct Wedge {
    /// The corner.
    pub i1: usize,
    /// The end of the first edge.
    pub i2: usize,
    /// The end of the second edge.
    pub i3: usize,
    /// The coordinate of the corner along the axis.
    pub v1: i32,
    /// The coordinate of `i2` along the axis.
    pub v2: i32,
    /// The coordinate of `i3` along the axis.
    pub v3: i32,
}

/// The mesh after the strips between the grid lines from `mp` to `limit`
/// were cut from the wedge, two triangles each, and the two vertices on the
/// last grid line: `i12` on the edge to `i2`, `i13` on the edge to `i3`.
pub open spec fn fanned(
    vertices: Seq<Site>,
    indices: Seq<usize>,
    up: bool,
    mp: int,
    limit: int,
    w: Wedge,
    i12: usize,
    i13: usize,
    modulo: i32,
) -> (Seq<Site>, Seq<usize>, usize, usize)
    decreases (if before(up, mp, limit) { distance(limit, mp) } else { 0 }),
{
    if before(up, mp, limit) && modulo > 0 {
        let vs1 = with_vertex(vertices, w.i1, w.i3, mp);
        let n13 = vertices.len() as usize;
        let vs2 = with_vertex(vs1, w.i1, w.i2, mp);
        let n12 = vs1.len() as usize;
        fanned(
            vs2,
            indices.push(i13).push(i12).push(n13).push(n13).push(i12).push(n12),
            up,
            stepped(up, mp, modulo),
            limit,
            w,
            n12,
            n13,
            modulo,
        )
    } else {
        (vertices, indices, i12, i13)
    }
}

/// Whether the edge to `i2` ends before the edge to `i3`, seen from the
/// corner.
pub open spec fn second_nearer(up: bool, w: Wedge) -> bool {
    if up {
        w.v2 < w.v3
    } else {
        w.v2 > w.v3
    }
}

/// The mesh after the wedge was cut along the grid lines from `mp` on, up
/// to the nearer end of its two edges, and the triangle that is left of it.
/// The cut pushes the triangle at the corner, two triangles for each strip,
/// and the triangle between the last grid line and the nearer end.
pub open spec fn split_at(
    vertices: Seq<Site>,
    indices: Seq<usize>,
    up: bool,
    mp: int,
    w: Wedge,
    modulo: i32,
) -> (Seq<Site>, Seq<usize>, [usize; 3]) {
    let vs1 = with_vertex(vertices, w.i1, w.i2, mp);
    let i12 = vertices.len() as usize;
    let vs2 = with_vertex(vs1, w.i1, w.i3, mp);
    let i13 = vs1.len() as usize;
    let limit = if second_nearer(up, w) {
        w.v2
    } else {
        w.v3
    };
    let (vs3, ind3, j12, j13) = fanned(
        vs2,
        indices.push(w.i1).push(i12).push(i13),
        up,
        stepped(up, mp, modulo),
        limit as int,
        w,
        i12,
        i13,
        modulo,
    );
    if second_nearer(up, w) {
        (vs3, ind3.push(j13).push(j12).push(w.i2), [j13, w.i2, w.i3])
    } else {
        (vs3, ind3.push(j13).push(j12).push(w.i3), [w.i3, j12, w.i2])
    }
}

/// Whether a wedge can be cut from the grid line `mp` on: its ends are
/// vertices of the mesh, `mp` is the first grid line behind the corner, it
/// does not lie behind the end of either edge, and not on both ends.
pub open spec fn wedge_ok(
    vertices: Seq<Site>,
    up: bool,
    mp: int,
    w: Wedge,
    modulo: i32,
) -> bool {
    &&& is_vertex(vertices, w.i1)
    &&& is_vertex(vertices, w.i2)
    &&& is_vertex(vertices, w.i3)
    &&& w == wedge_at(vertices, w.i1, w.i2, w.i3)
    &&& mp % (modulo as int) == 0
    &&& (w.v2 != mp || w.v3 != mp)
    &&& if up {
        w.v1 < mp <= w.v1 + modulo && mp <= w.v2 && mp <= w.v3
    } else {
        w.v1 - modulo <= mp < w.v1 && mp >= w.v2 && mp >= w.v3
    }
}

/// The index list with the two triangles of one strip: between the
/// vertices `i12` and `i13` on one grid line and the vertices `n12` and
/// `n13` on the next.
pub open spec fn with_strip(indices: Seq<usize>, i12: usize, i13: usize, n12: usize, n13: usize) -> Seq<
    usize,
> {
    indices.push(i13).push(i12).push(n13).push(n13).push(i12).push(n12)
}

/// Cuts one strip from the wedge: pushes the two vertices where the edges
/// of the wedge meet the grid line `mp`, and the two triangles between
/// them and the vertices `i12` and `i13` on the grid line before. Returns
/// the new vertices, the one on the edge to `i2` first.
pub fn cut_strip(
    mp: i64,
    w: Wedge,
    i12: usize,
    i13: usize,
    vertices: &mut Vec<Site>,
    indices: &mut Vec<usize>,
    Ghost(base): Ghost<Seq<Site>>,
) -> (n: (usize, usize))
    requires
        mesh_ok(old(vertices)@, old(indices)@),
        keeps(base, old(vertices)@),
        is_vertex(base, w.i1),
        is_vertex(base, w.i2),
        is_vertex(base, w.i3),
        w == wedge_at(base, w.i1, w.i2, w.i3),
        is_vertex(old(vertices)@, i12),
        is_vertex(old(vertices)@, i13),
        on_the_way(w.v1, w.v2, mp as int),
        on_the_way(w.v1, w.v3, mp as int),
    ensures
        final(vertices)@ == with_vertex(
            with_vertex(old(vertices)@, w.i1, w.i3, mp as int),
            w.i1,
            w.i2,
            mp as int,
        ),
        final(indices)@ == with_strip(old(indices)@, i12, i13, n.0, n.1),
        n.1 == old(vertices).len(),
        n.0 == old(vertices).len() + 1,
        mesh_ok(final(vertices)@, final(indices)@),
        is_vertex(final(vertices)@, n.0),
        is_vertex(final(vertices)@, n.1),
        at(final(vertices)@, n.0) == mp,
        at(final(vertices)@, n.1) == mp,
        keeps(old(vertices)@, final(vertices)@),
        forall|m: int| m > 0 && mp as int % m == 0 ==> cuts_ok(
            final(vertices)@,
            old(vertices).len() as int,
            m,
        ),
{
    let ghost v0 = vertices@;
    proof {
        assert(at(v0, w.i1) == at(base, w.i1));
        assert(at(v0, w.i2) == at(base, w.i2));
        assert(at(v0, w.i3) == at(base, w.i3));
    }
    indices.push(i13);
    indices.push(i12);
    let n13: usize = create_vertex(mp, w.i1, w.i3, w.v1, w.v3, vertices);
    let ghost v1 = vertices@;
    proof {
        lemma_keeps_chain(base, v0, v1);
        assert(at(v1, w.i1) == at(v0, w.i1));
        assert(at(v1, w.i2) == at(v0, w.i2));
    }
    indices.push(n13);
    indices.push(n13);
    indices.push(i12);
    let n12: usize = create_vertex(mp, w.i1, w.i2, w.v1, w.v2, vertices);
    proof {
        lemma_keeps_chain(v0, v1, vertices@);
        assert(at(vertices@, n13) == at(v1, n13));
        assert forall|m: int| m > 0 && mp as int % m == 0 implies cuts_ok(
            vertices@,
            v0.len() as int,
            m,
        ) by {
            lemma_cuts_chain(v0, v1, vertices@, v0.len() as int, m);
        }
        assert(keeps(v0, vertices@)) by {
            assert forall|j: int| 0 <= j < v0.len() implies #[trigger] vertices@[j] == v0[j] by {
                assert(v1[j] == v0[j]);
            }
        }
    }
    indices.push(n12);
    (n12, n13)
}

/// Cuts the wedge along the grid lines from `mod_point` on and returns the
/// triangle that is left of it.
pub fn split_fan(
    up: bool,
    mod_point: i64,
    w: Wedge,
    vertices: &mut Vec<Site>,
    indices: &mut Vec<usize>,
    modulo: i32,
) -> (rest: [usize; 3])
    requires
        mesh_ok(old(vertices)@, old(indices)@),
        modulo > 0,
        wedge_ok(old(vertices)@, up, mod_point as int, w, modulo),
    ensures
        keeps(old(vertices)@, final(vertices)@),
        cuts_ok(final(vertices)@, old(vertices).len() as int, modulo as int),
        (final(vertices)@, final(indices)@, rest) == split_at(
            old(vertices)@,
            old(indices)@,
            up,
            mod_point as int,
            w,
            modulo,
        ),
        mesh_ok(final(vertices)@, final(indices)@),
        split_ok(
            old(vertices)@,
            old(indices)@,
            final(vertices)@,
            final(indices)@,
            rest,
            w.i1,
            w.i2,
            w.i3,
            modulo,
        ),
{
    let ghost base = vertices@;
    let ghost from = indices@.len() as int;
    let ghost m = modulo as int;
    let mut i12: usize = create_vertex(mod_point, w.i1, w.i2, w.v1, w.v2, vertices);
    let ghost v1 = vertices@;
    proof {
        assert(at(v1, w.i1) == at(base, w.i1));
        assert(at(v1, w.i3) == at(base, w.i3));
    }
    let mut i13: usize = create_vertex(mod_point, w.i1, w.i3, w.v1, w.v3, vertices);
    proof {
        lemma_cuts_chain(base, v1, vertices@, base.len() as int, m);
        lemma_keeps_chain(base, v1, vertices@);
        assert(at(vertices@, i12) == at(v1, i12));
        assert(at(vertices@, w.i1) == at(base, w.i1));
        lemma_line_cell(mod_point as int, m);
        if up {
            lemma_span_in_cell(w.v1 as int, mod_point as int, mod_point - m, m);
        } else {
            lemma_span_in_cell(mod_point as int, w.v1 as int, mod_point as int, m);
        }
        assert(piece_ok(vertices@, w.i1, i12, i13, m));
        assert(pieces_ok(vertices@, indices@, from, m));
        lemma_piece_pushed(
            vertices@,
            indices@,
            from,
            w.i1,
            i12,
            i13,
            m,
        );
    }
    indices.push(w.i1);
    indices.push(i12);
    indices.push(i13);
    let near: bool = if up {
        w.v2 < w.v3
    } else {
        w.v2 > w.v3
    };
    let limit: i64 = if near {
        w.v2 as i64
    } else {
        w.v3 as i64
    };
    let mut mp: i64 = if up {
        mod_point + modulo as i64
    } else {
        mod_point - modulo as i64
    };
    let ghost goal = fanned(
        vertices@,
        indices@,
        up,
        mp as int,
        limit as int,
        w,
        i12,
        i13,
        modulo,
    );
    let ghost lines: int = 1;
    while (up && mp < limit) || (!up && mp > limit)
        invariant
            mesh_ok(vertices@, indices@),
            modulo > 0,
            m == modulo,
            from % 3 == 0,
            0 <= from,
            keeps(base, vertices@),
            is_vertex(base, w.i1),
            is_vertex(base, w.i2),
            is_vertex(base, w.i3),
            w == wedge_at(base, w.i1, w.i2, w.i3),
            is_vertex(vertices@, i12),
            is_vertex(vertices@, i13),
            at(vertices@, i12) == stepped(!up, mp as int, modulo),
            at(vertices@, i13) == stepped(!up, mp as int, modulo),
            stepped(!up, mp as int, modulo) % m == 0,
            limit == (if near { w.v2 } else { w.v3 }),
            near == second_nearer(up, w),
            up ==> w.v1 < stepped(!up, mp as int, modulo) <= limit,
            !up ==> w.v1 > stepped(!up, mp as int, modulo) >= limit,
            lines >= 1,
            lines == 1 ==> stepped(!up, mp as int, modulo) == mod_point,
            lines > 1 && up ==> stepped(!up, mp as int, modulo) < limit,
            lines > 1 && !up ==> stepped(!up, mp as int, modulo) > limit,
            wedge_ok(base, up, mod_point as int, w, modulo),
            indices.len() == from + 6 * lines - 3,
            stepped(!up, mp as int, modulo) / m == (if up {
                mod_point as int / m + lines - 1
            } else {
                mod_point as int / m - lines + 1
            }),
            pieces_ok(vertices@, indices@, from, m),
            forall|j: int| 0 <= j < from ==> indices@[j] == old(indices)@[j],
            keeps(base, vertices@),
            cuts_ok(vertices@, base.len() as int, m),
            mp as int % m == 0,
            fanned(
                vertices@,
                indices@,
                up,
                mp as int,
                limit as int,
                w,
                i12,
                i13,
                modulo,
            ) == goal,
        decreases (if before(up, mp as int, limit as int) {
            distance(limit as int, mp as int)
        } else {
            0
        }),
    {
        let ghost v_before = vertices@;
        let ghost i_before = indices@;
        let ghost line = stepped(!up, mp as int, modulo);
        let (n12, n13) = cut_strip(mp, w, i12, i13, vertices, indices, Ghost(base));
        proof {
            lemma_cuts_chain(base, v_before, vertices@, base.len() as int, m);
            lemma_line_cell(mp as int, m);
            lemma_keeps_chain(base, v_before, vertices@);
            lemma_pieces_kept(
                v_before,
                vertices@,
                i_before,
                from,
                m,
            );
            assert(at(vertices@, i12) == line);
            assert(at(vertices@, i13) == line);
            lemma_line_cell(line, m);
            if up {
                lemma_span_in_cell(line, mp as int, line, m);
            } else {
                lemma_span_in_cell(mp as int, line, mp as int, m);
            }
            assert(piece_ok(vertices@, i13, i12, n13, m));
            assert(piece_ok(vertices@, n13, i12, n12, m));
            lemma_piece_pushed(
                vertices@,
                i_before,
                from,
                i13,
                i12,
                n13,
                m,
            );
            lemma_piece_pushed(
                vertices@,
                i_before.push(i13).push(i12).push(n13),
                from,
                n13,
                i12,
                n12,
                m,
            );
            lines = lines + 1;
        }
        i12 = n12;
        i13 = n13;
        if up {
            mp = mp + modulo as i64;
        } else {
            mp = mp - modulo as i64;
        }
    }
    let ghost line = stepped(!up, mp as int, modulo);
    let last: usize = if near {
        w.i2
    } else {
        w.i3
    };
    proof {
        assert(at(vertices@, w.i1) == at(base, w.i1));
        assert(at(vertices@, w.i2) == at(base, w.i2));
        assert(at(vertices@, w.i3) == at(base, w.i3));
        lemma_line_cell(line, m);
        lemma_line_cell(mod_point as int, m);
        if up {
            lemma_span_in_cell(line, limit as int, line, m);
        } else {
            lemma_span_in_cell(limit as int, line, line - m, m);
        }
        assert(piece_ok(vertices@, i13, i12, last, m));
        lemma_piece_pushed(
            vertices@,
            indices@,
            from,
            i13,
            i12,
            last,
            m,
        );
    }
    indices.push(i13);
    indices.push(i12);
    indices.push(last);
    let rest: [usize; 3] = if near {
        [i13, w.i2, w.i3]
    } else {
        [w.i3, i12, w.i2]
    };
    proof {
        let k = mod_point as int / m;
        assert((k - 1) * m == k * m - m) by (nonlinear_arith);
        let v1 = w.v1 as int;
        let v2 = w.v2 as int;
        let v3 = w.v3 as int;
        assert(at(vertices@, i12) == line);
        assert(at(vertices@, i13) == line);
        if up {
            lemma_in_cell(v1, m, k - 1);
            assert(tri_low(base, w.i1, w.i2, w.i3) == v1);
            assert(tri_low(vertices@, rest[0], rest[1], rest[2]) == line);
            assert(tri_high(vertices@, rest[0], rest[1], rest[2]) == tri_high(
                base,
                w.i1,
                w.i2,
                w.i3,
            ));
            assert(line < tri_high(base, w.i1, w.i2, w.i3));
        } else {
            lemma_in_cell(v1 - 1, m, k);
            assert(tri_high(base, w.i1, w.i2, w.i3) == v1);
            assert(tri_high(vertices@, rest[0], rest[1], rest[2]) == line);
            assert(tri_low(vertices@, rest[0], rest[1], rest[2]) == tri_low(
                base,
                w.i1,
                w.i2,
                w.i3,
            ));
            assert(line > tri_low(base, w.i1, w.i2, w.i3));
        }
        assert(crossed(base, w.i1, w.i2, w.i3, m) - crossed(
            vertices@,
            rest[0],
            rest[1],
            rest[2],
            m,
        ) == lines);
    }
    rest
}

/// What a cut of the triangle `a`, `b`, `c` leaves behind: the buffer keeps
/// its sites and the list its entries; no grid line crosses a triangle that
/// was pushed; what is left of the cut triangle lies between vertices of
/// the buffer; and for each grid line that no longer crosses what is left,
/// two triangles were pushed.
pub open spec fn split_ok(
    base: Seq<Site>,
    before: Seq<usize>,
    vertices: Seq<Site>,
    indices: Seq<usize>,
    rest: [usize; 3],
    a: usize,
    b: usize,
    c: usize,
    modulo: i32,
) -> bool {
    let drop = crossed(base, a, b, c, modulo as int) - crossed(
        vertices,
        rest[0],
        rest[1],
        rest[2],
        modulo as int,
    );
    &&& keeps(base, vertices)
    &&& forall|j: int| 0 <= j < before.len() ==> indices[j] == before[j]
    &&& pieces_ok(vertices, indices, before.len() as int, modulo as int)
    &&& forall|j: int| 0 <= j < 3 ==> is_vertex(vertices, #[trigger] rest[j])
    &&& drop >= 1
    &&& indices.len() == before.len() + 6 * drop
}

/// Cuts a wedge whose corner lies below its other two vertices along the
/// grid lines from `mod_point` upwards.
pub fn split_right(
    mod_point: i64,
    w: Wedge,
    vertices: &mut Vec<Site>,
    indices: &mut Vec<usize>,
    modulo: i32,
) -> (rest: [usize; 3])
    requires
        mesh_ok(old(vertices)@, old(indices)@),
        modulo > 0,
        wedge_ok(old(vertices)@, true, mod_point as int, w, modulo),
    ensures
        keeps(old(vertices)@, final(vertices)@),
        cuts_ok(final(vertices)@, old(vertices).len() as int, modulo as int),
        (final(vertices)@, final(indices)@, rest) == split_at(
            old(vertices)@,
            old(indices)@,
            true,
            mod_point as int,
            w,
            modulo,
        ),
        mesh_ok(final(vertices)@, final(indices)@),
        split_ok(
            old(vertices)@,
            old(indices)@,
            final(vertices)@,
            final(indices)@,
            rest,
            w.i1,
            w.i2,
            w.i3,
            modulo,
        ),
{
    split_fan(true, mod_point, w, vertices, indices, modulo)
}

/// Cuts a wedge whose corner lies above its other two vertices along the
/// grid lines from `mod_point` downwards.
pub fn split_left(
    mod_point: i64,
    w: Wedge,
    vertices: &mut Vec<Site>,
    indices: &mut Vec<usize>,
    modulo: i32,
) -> (rest: [usize; 3])
    requires
        mesh_ok(old(vertices)@, old(indices)@),
        modulo > 0,
        wedge_ok(old(vertices)@, false, mod_point as int, w, modulo),
    ensures
        keeps(old(vertices)@, final(vertices)@),
        cuts_ok(final(vertices)@, old(vertices).len() as int, modulo as int),
        (final(vertices)@, final(indices)@, rest) == split_at(
            old(vertices)@,
            old(indices)@,
            false,
            mod_point as int,
            w,
            modulo,
        ),
        mesh_ok(final(vertices)@, final(indices)@),
        split_ok(
            old(vertices)@,
            old(indices)@,
            final(vertices)@,
            final(indices)@,
            rest,
            w.i1,
            w.i2,
            w.i3,
            modulo,
        ),
{
    split_fan(false, mod_point, w, vertices, indices, modulo)
}

/// What a cut leaves behind does not depend on which corner of the cut
/// triangle is named first.
pub proof fn lemma_split_rotated(
    base: Seq<Site>,
    before: Seq<usize>,
    vertices: Seq<Site>,
    indices: Seq<usize>,
    rest: [usize; 3],
    a: usize,
    b: usize,
    c: usize,
    modulo: i32,
)
    requires
        split_ok(base, before, vertices, indices, rest, b, c, a, modulo),
    ensures
        split_ok(base, before, vertices, indices, rest, a, b, c, modulo),
{
    assert(tri_low(base, b, c, a) == tri_low(base, a, b, c));
    assert(tri_high(base, b, c, a) == tri_high(base, a, b, c));
}

/// The number of times that a grid line of the axis crosses a triangle of
/// the list from position `i` on.
pub open spec fn pending(
    vertices: Seq<Site>,
    indices: Seq<usize>,
    i: int,
    m: int,
) -> int
    decreases (if i < indices.len() { indices.len() - i } else { 0 }),
{
    if 0 <= i && i + 3 <= indices.len() {
        crossed(vertices, indices[i], indices[i + 1], indices[i + 2], m)
            + pending(vertices, indices, i + 3, m)
    } else {
        0
    }
}

/// A bound on the number of triangles that are still to be looked at, from
/// position `i` of the list on: each crossing of a grid line gives two
/// more to look at, and one cut.
pub open spec fn budget(
    vertices: Seq<Site>,
    indices: Seq<usize>,
    i: int,
    m: int,
) -> int {
    9 * pending(vertices, indices, i, m) + (indices.len() - i)
}

/// What is pending is never less than nothing.
pub proof fn lemma_pending_positive(
    vertices: Seq<Site>,
    indices: Seq<usize>,
    i: int,
    m: int,
)
    requires
        m > 0,
    ensures
        pending(vertices, indices, i, m) >= 0,
    decreases (if i < indices.len() { indices.len() - i } else { 0 }),
{
    if 0 <= i && i + 3 <= indices.len() {
        lemma_pending_positive(vertices, indices, i + 3, m);
        let lo = tri_low(vertices, indices[i], indices[i + 1], indices[i + 2]);
        let hi = tri_high(vertices, indices[i], indices[i + 1], indices[i + 2]);
        lemma_lines_shrink(lo, hi, lo, hi, m);
    }
}

/// New vertices behind the old ones do not change what is pending.
pub proof fn lemma_pending_extended(
    before: Seq<Site>,
    after: Seq<Site>,
    indices: Seq<usize>,
    i: int,
    m: int,
)
    requires
        keeps(before, after),
        forall|j: int| 0 <= j < indices.len() ==> is_vertex(before, #[trigger] indices[j]),
    ensures
        pending(after, indices, i, m) == pending(before, indices, i, m),
    decreases (if i < indices.len() { indices.len() - i } else { 0 }),
{
    if 0 <= i && i + 3 <= indices.len() {
        lemma_pending_extended(before, after, indices, i + 3, m);
        assert(at(after, indices[i]) == at(before, indices[i]));
        assert(at(after, indices[i + 1]) == at(
            before,
            indices[i + 1],
        ));
        assert(at(after, indices[i + 2]) == at(
            before,
            indices[i + 2],
        ));
    }
}

/// Two lists that agree from position `i` on have the same pending there.
pub proof fn lemma_pending_same(
    vertices: Seq<Site>,
    first: Seq<usize>,
    second: Seq<usize>,
    i: int,
    m: int,
)
    requires
        first.len() == second.len(),
        forall|j: int| i <= j < first.len() ==> first[j] == second[j],
    ensures
        pending(vertices, first, i, m) == pending(vertices, second, i, m),
    decreases (if i < first.len() { first.len() - i } else { 0 }),
{
    if 0 <= i && i + 3 <= first.len() {
        lemma_pending_same(vertices, first, second, i + 3, m);
    }
}

/// Triangles that no grid line crosses, pushed behind a list, do not change
/// what is pending.
pub proof fn lemma_pending_pushed(
    vertices: Seq<Site>,
    shorter: Seq<usize>,
    longer: Seq<usize>,
    i: int,
    m: int,
)
    requires
        0 <= i,
        shorter.len() <= longer.len(),
        (shorter.len() - i) % 3 == 0,
        (longer.len() - shorter.len()) % 3 == 0,
        forall|j: int| 0 <= j < shorter.len() ==> longer[j] == shorter[j],
        pieces_ok(vertices, longer, shorter.len() as int, m),
    ensures
        pending(vertices, longer, i, m) == pending(vertices, shorter, i, m),
    decreases (if i < longer.len() { longer.len() - i } else { 0 }),
{
    if i + 3 <= longer.len() {
        if i < shorter.len() {
            assert(i + 3 <= shorter.len());
            lemma_pending_pushed(vertices, shorter, longer, i + 3, m);
        } else {
            lemma_pending_tail(vertices, shorter, longer, i, m);
        }
    }
}

/// Nothing is pending among triangles that no grid line crosses.
pub proof fn lemma_pending_tail(
    vertices: Seq<Site>,
    shorter: Seq<usize>,
    longer: Seq<usize>,
    i: int,
    m: int,
)
    requires
        0 <= i,
        shorter.len() <= i,
        (i - shorter.len()) % 3 == 0,
        pieces_ok(vertices, longer, shorter.len() as int, m),
    ensures
        pending(vertices, longer, i, m) == 0,
    decreases (if i < longer.len() { longer.len() - i } else { 0 }),
{
    if i + 3 <= longer.len() {
        assert(piece_ok(
            vertices,
            longer[i],
            longer[i + 1],
            longer[i + 2],
            m,
        ));
        lemma_pending_tail(vertices, shorter, longer, i + 3, m);
    }
}

/// Where a triangle is cut from the corner with coordinate `c`, whose other
/// two vertices have the coordinates `s` and `t`: upwards from the first
/// grid line above a corner that lies below both, downwards from the first
/// grid line below a corner that lies above both, if that line does not
/// lie behind `s` or `t`. A line through `s` is no cut; where `both` is
/// set, it is one unless it runs through `t` as well.
pub open spec fn corner_cut(c: i32, s: i32, t: i32, modulo: i32, both: bool) -> Option<(bool, int)> {
    let rest = (c as int) % (modulo as int);
    if c < s && c < t {
        let mp = c + modulo - rest;
        if mp <= s && mp <= t && (s != mp || (both && t != mp)) {
            Some((true, mp))
        } else {
            None
        }
    } else if c > s && c > t {
        let mp = c - (if rest == 0 {
            modulo as int
        } else {
            rest
        });
        if mp >= s && mp >= t && (s != mp || (both && t != mp)) {
            Some((false, mp))
        } else {
            None
        }
    } else {
        None
    }
}

/// The wedge of the triangle `i1`, `i2`, `i3` with its corner at `i1`.
pub open spec fn wedge_at(vertices: Seq<Site>, i1: usize, i2: usize, i3: usize) -> Wedge {
    Wedge {
        i1,
        i2,
        i3,
        v1: coord(vertices, i1),
        v2: coord(vertices, i2),
        v3: coord(vertices, i3),
    }
}

/// The mesh after the triangle `i1`, `i2`, `i3` was cut along the grid lines
/// that cross it, and the triangle that is left of it; `None` where no grid
/// line crosses it. The first vertex is tried as the corner, then the
/// second, then the third.
pub open spec fn split_of(
    vertices: Seq<Site>,
    indices: Seq<usize>,
    i1: usize,
    i2: usize,
    i3: usize,
    modulo: i32,
) -> Option<(Seq<Site>, Seq<usize>, [usize; 3])> {
    let w1 = wedge_at(vertices, i1, i2, i3);
    let w2 = wedge_at(vertices, i2, i3, i1);
    let w3 = wedge_at(vertices, i3, i1, i2);
    match corner_cut(w1.v1, w1.v2, w1.v3, modulo, false) {
        Some((up, mp)) => Some(split_at(vertices, indices, up, mp, w1, modulo)),
        None => match corner_cut(w2.v1, w2.v2, w2.v3, modulo, true) {
            Some((up, mp)) => Some(split_at(vertices, indices, up, mp, w2, modulo)),
            None => match corner_cut(w3.v1, w3.v2, w3.v3, modulo, true) {
                Some((up, mp)) => Some(split_at(vertices, indices, up, mp, w3, modulo)),
                None => None,
            },
        },
    }
}

/// The index list with the triangle at position `i` replaced.
pub open spec fn with_rest(indices: Seq<usize>, i: int, rest: [usize; 3]) -> Seq<usize> {
    indices.update(i, rest[0]).update(i + 1, rest[1]).update(i + 2, rest[2])
}

/// The mesh after the triangles from position `i` on were cut along the
/// grid lines of one axis, in at most `fuel` steps. What is left of a cut
/// triangle takes its place and is tried again; the triangles that the cut
/// pushes are tried when their turn comes.
pub open spec fn tesselated_axis(
    vertices: Seq<Site>,
    indices: Seq<usize>,
    i: int,
    modulo: i32,
    fuel: nat,
) -> (Seq<Site>, Seq<usize>)
    decreases fuel,
{
    if fuel > 0 && 0 <= i && i + 3 <= indices.len() {
        match split_of(
            vertices,
            indices,
            indices[i],
            indices[i + 1],
            indices[i + 2],
            modulo,
        ) {
            Some((vs, ind, rest)) => tesselated_axis(
                vs,
                with_rest(ind, i, rest),
                i,
                modulo,
                (fuel - 1) as nat,
            ),
            None => tesselated_axis(vertices, indices, i + 3, modulo, (fuel - 1) as nat),
        }
    } else {
        (vertices, indices)
    }
}

/// The mesh after it was cut along the grid lines, whose spacing is
/// `modulo`. The steps that the cut is given are as many as its budget,
/// which is more than it takes.
pub open spec fn tesselated(vertices: Seq<Site>, indices: Seq<usize>, modulo: i32) -> (
    Seq<Site>,
    Seq<usize>,
) {
    tesselated_axis(
        vertices,
        indices,
        0,
        modulo,
        budget(vertices, indices, 0, modulo as int) as nat,
    )
}

/// Where a grid line lies strictly between two numbers, the first line
/// above the lesser and the last line below the greater lie there too, in
/// this order.
pub proof fn lemma_line_inside(lo: int, hi: int, m: int)
    requires
        m > 0,
        lines_between(lo, hi, m) >= 1,
    ensures
        lo < lo + m - lo % m <= hi - (if hi % m == 0 { m } else { hi % m }) < hi,
{
    lemma_next_lines(lo, m);
    lemma_next_lines(hi, m);
    let first = lo + m - lo % m;
    let last = hi - (if hi % m == 0 {
        m
    } else {
        hi % m
    });
    lemma_line_cell(first, m);
    lemma_line_cell(last, m);
    let p = first / m;
    let q = last / m;
    assert(p * m <= q * m) by (nonlinear_arith)
        requires
            p <= q,
            m > 0,
    ;
}

/// A triangle that is cut from none of its corners is crossed by no grid
/// line.
pub proof fn lemma_uncut(v1: i32, v2: i32, v3: i32, modulo: i32)
    requires
        modulo > 0,
        corner_cut(v1, v2, v3, modulo, false) is None,
        corner_cut(v2, v3, v1, modulo, true) is None,
        corner_cut(v3, v1, v2, modulo, true) is None,
    ensures
        lines_between(low3(v1 as int, v2 as int, v3 as int), high3(v1 as int, v2 as int, v3 as int), modulo as int) == 0,
{
    let m = modulo as int;
    let lo = low3(v1 as int, v2 as int, v3 as int);
    let hi = high3(v1 as int, v2 as int, v3 as int);
    lemma_lines_shrink(lo, hi, lo, hi, m);
    if lines_between(lo, hi, m) >= 1 {
        lemma_line_inside(lo, hi, m);
        lemma_next_lines(v1 as int, m);
        lemma_next_lines(v2 as int, m);
        lemma_next_lines(v3 as int, m);
    }
}

/// How far the triangle at position `j` of the list reaches along the axis
/// `k`.
pub open spec fn span_at(vertices: Seq<Site>, indices: Seq<usize>, j: int) -> int {
    tri_high(vertices, indices[j], indices[j + 1], indices[j + 2]) - tri_low(
        vertices,
        indices[j],
        indices[j + 1],
        indices[j + 2],
    )
}

/// Whether no triangle of the list reaches further than `m` along the axis.
pub open spec fn fits(vertices: Seq<Site>, indices: Seq<usize>, m: int) -> bool {
    forall|j: int|
        0 <= j && j + 3 <= indices.len() && j % 3 == 0 ==> #[trigger] span_at(vertices, indices, j)
            <= m
}

/// How many grid lines of the axis cross the triangle at position `j`.
pub open spec fn crossed_at(
    vertices: Seq<Site>,
    indices: Seq<usize>,
    j: int,
    m: int,
) -> int {
    crossed(vertices, indices[j], indices[j + 1], indices[j + 2], m)
}

/// Whether no grid line of the axis crosses a triangle before position `i`.
pub open spec fn settled(
    vertices: Seq<Site>,
    indices: Seq<usize>,
    i: int,
    m: int,
) -> bool {
    forall|j: int|
        0 <= j < i && j + 3 <= indices.len() && j % 3 == 0 ==> #[trigger] crossed_at(
            vertices,
            indices,
            j,
            m,
        ) == 0
}

/// A cut leaves the triangles before the cut one as they were.
pub proof fn lemma_settled_after_split(
    v0: Seq<Site>,
    ind0: Seq<usize>,
    v1: Seq<Site>,
    ind1: Seq<usize>,
    rest: [usize; 3],
    i: int,
    modulo: i32,
)
    requires
        mesh_ok(v0, ind0),
        0 <= i,
        i % 3 == 0,
        i + 3 <= ind0.len(),
        settled(v0, ind0, i, modulo as int),
        split_ok(v0, ind0, v1, ind1, rest, ind0[i], ind0[i + 1], ind0[i + 2], modulo),
    ensures
        settled(v1, with_rest(ind1, i, rest), i, modulo as int),
{
    let m = modulo as int;
    let ind2 = with_rest(ind1, i, rest);
    assert forall|j: int| 0 <= j < i && j + 3 <= ind2.len() && j % 3 == 0 implies #[trigger] crossed_at(
        v1,
        ind2,
        j,
        m,
    ) == 0 by {
        assert(ind2[j] == ind0[j] && ind2[j + 1] == ind0[j + 1] && ind2[j + 2] == ind0[j + 2]);
        assert(crossed_at(v0, ind0, j, m) == 0);
        assert(at(v1, ind0[j]) == at(v0, ind0[j]));
        assert(at(v1, ind0[j + 1]) == at(v0, ind0[j + 1]));
        assert(at(v1, ind0[j + 2]) == at(v0, ind0[j + 2]));
    }
}

/// When no grid line crosses a triangle any more, every triangle is within
/// the spacing.
pub proof fn lemma_settled_fits(vertices: Seq<Site>, indices: Seq<usize>, m: int)
    requires
        m > 0,
        settled(vertices, indices, indices.len() as int, m),
    ensures
        fits(vertices, indices, m),
{
    assert forall|j: int| 0 <= j && j + 3 <= indices.len() && j % 3 == 0 implies #[trigger] span_at(
        vertices,
        indices,
        j,
    ) <= m by {
        assert(crossed_at(vertices, indices, j, m) == 0);
        lemma_uncrossed_span(
            tri_low(vertices, indices[j], indices[j + 1], indices[j + 2]),
            tri_high(vertices, indices[j], indices[j + 1], indices[j + 2]),
            m,
        );
    }
}

/// Where a triangle is cut from the corner with coordinate `c`.
pub fn cut_from_corner(c: i32, s: i32, t: i32, modulo: i32, both: bool) -> (cut: Option<(bool, i64)>)
    requires
        modulo > 0,
    ensures
        cut == match corner_cut(c, s, t, modulo, both) {
            Some((up, mp)) => Some((up, mp as i64)),
            None => None,
        },
        corner_cut(c, s, t, modulo, both) matches Some((up, mp)) ==> {
            &&& -0x8000_0000 <= mp <= 0x7fff_ffff
            &&& mp % (modulo as int) == 0
            &&& (s != mp || t != mp)
            &&& if up {
                c < mp <= c + modulo && mp <= s && mp <= t
            } else {
                c - modulo <= mp < c && mp >= s && mp >= t
            }
        },
{
    proof {
        lemma_next_lines(c as int, modulo as int);
    }
    if c < s && c < t {
        let mp: i64 = c as i64 + modulo as i64 - mod2(c as i64, modulo as i64);
        if mp <= s as i64 && mp <= t as i64 && (s as i64 != mp || (both && t as i64 != mp)) {
            return Some((true, mp));
        }
    } else if c > s && c > t {
        let mut rest: i64 = mod2(c as i64, modulo as i64);
        if rest == 0 {
            rest = modulo as i64;
        }
        let mp: i64 = c as i64 - rest;
        if mp >= s as i64 && mp >= t as i64 && (s as i64 != mp || (both && t as i64 != mp)) {
            return Some((false, mp));
        }
    }
    None
}

/// Reads the wedge of the triangle `i1`, `i2`, `i3` with its corner at `i1`.
pub fn wedge(vertices: &Vec<Site>, i1: usize, i2: usize, i3: usize) -> (w:
    Wedge)
    requires
        is_vertex(vertices@, i1),
        is_vertex(vertices@, i2),
        is_vertex(vertices@, i3),
    ensures
        w == wedge_at(vertices@, i1, i2, i3),
{
    Wedge { i1, i2, i3, v1: vertices[i1].height, v2: vertices[i2].height, v3: vertices[i3].height }
}

/// Cuts the triangle `i1`, `i2`, `i3` along the grid lines that cross it and
/// returns the triangle that is left of it, or `None` where no grid line
/// crosses it.
pub fn split_if_necessary(
    i1: usize,
    i2: usize,
    i3: usize,
    vertices: &mut Vec<Site>,
    indices: &mut Vec<usize>,
    modulo: i32,
) -> (rest: Option<[usize; 3]>)
    requires
        mesh_ok(old(vertices)@, old(indices)@),
        modulo > 0,
        is_vertex(old(vertices)@, i1),
        is_vertex(old(vertices)@, i2),
        is_vertex(old(vertices)@, i3),
    ensures
        match split_of(old(vertices)@, old(indices)@, i1, i2, i3, modulo) {
            Some(cut) => rest == Some(cut.2) && final(vertices)@ == cut.0 && final(indices)@
                == cut.1,
            None => rest is None && final(vertices)@ == old(vertices)@ && final(indices)@ == old(
                indices,
            )@,
        },
        mesh_ok(final(vertices)@, final(indices)@),
        keeps(old(vertices)@, final(vertices)@),
        cuts_ok(final(vertices)@, old(vertices).len() as int, modulo as int),
        rest is None ==> crossed(old(vertices)@, i1, i2, i3, modulo as int) == 0,
        rest matches Some(r) ==> split_ok(
            old(vertices)@,
            old(indices)@,
            final(vertices)@,
            final(indices)@,
            r,
            i1,
            i2,
            i3,
            modulo,
        ),
{
    let w1: Wedge = wedge(vertices, i1, i2, i3);
    if let Some((up, mp)) = cut_from_corner(w1.v1, w1.v2, w1.v3, modulo, false) {
        return Some(
            if up {
                split_right(mp, w1, vertices, indices, modulo)
            } else {
                split_left(mp, w1, vertices, indices, modulo)
            },
        );
    }
    let w2: Wedge = wedge(vertices, i2, i3, i1);
    if let Some((up, mp)) = cut_from_corner(w2.v1, w2.v2, w2.v3, modulo, true) {
        let rest: [usize; 3] = if up {
            split_right(mp, w2, vertices, indices, modulo)
        } else {
            split_left(mp, w2, vertices, indices, modulo)
        };
        proof {
            lemma_split_rotated(
                old(vertices)@,
                old(indices)@,
                vertices@,
                indices@,
                rest,
                i1,
                i2,
                i3,
                modulo,
            );
        }
        return Some(rest);
    }
    let w3: Wedge = wedge(vertices, i3, i1, i2);
    if let Some((up, mp)) = cut_from_corner(w3.v1, w3.v2, w3.v3, modulo, true) {
        let rest: [usize; 3] = if up {
            split_right(mp, w3, vertices, indices, modulo)
        } else {
            split_left(mp, w3, vertices, indices, modulo)
        };
        proof {
            lemma_split_rotated(
                old(vertices)@,
                old(indices)@,
                vertices@,
                indices@,
                rest,
                i2,
                i3,
                i1,
                modulo,
            );
            lemma_split_rotated(
                old(vertices)@,
                old(indices)@,
                vertices@,
                indices@,
                rest,
                i1,
                i2,
                i3,
                modulo,
            );
        }
        return Some(rest);
    }
    proof {
        lemma_uncut(w1.v1, w1.v2, w1.v3, modulo);
    }
    None
}

/// Cuts the mesh along the grid lines of one axis, whose spacing is
/// `modulo`. `sites` says where each vertex stands along the axis. For each
/// new vertex a site is pushed that names the edge that the vertex lies on
/// and the grid line that it lies on, and in `indices` every triangle that
/// a grid line crosses gives way to the triangles that it is cut into.
/// Afterwards no grid line crosses a triangle, so that none reaches further
/// than the spacing. Where the caller puts each new vertex on its edge, the
/// triangles have the area that they had
/// (`lemma_cut_keeps_the_whole_area`).
#[verifier::rlimit(50)]
pub fn tesselate(sites: &mut Vec<Site>, indices: &mut Vec<usize>, modulo: i32)
    requires
        mesh_ok(old(sites)@, old(indices)@),
        modulo > 0,
    ensures
        (final(sites)@, final(indices)@) == tesselated(old(sites)@, old(indices)@, modulo),
        mesh_ok(final(sites)@, final(indices)@),
        keeps(old(sites)@, final(sites)@),
        cuts_ok(final(sites)@, old(sites).len() as int, modulo as int),
        final(indices).len() >= old(indices).len(),
        settled(final(sites)@, final(indices)@, final(indices).len() as int, modulo as int),
        fits(final(sites)@, final(indices)@, modulo as int),
{
    let mut i: usize = 0;
    let ghost m = modulo as int;
    let ghost mut fuel: int = budget(sites@, indices@, 0, m);
    let ghost goal = tesselated_axis(sites@, indices@, 0, modulo, fuel as nat);
    proof {
        lemma_pending_positive(sites@, indices@, 0, m);
    }
    while i < indices.len()
        invariant
            mesh_ok(sites@, indices@),
            modulo > 0,
            m == modulo,
            i % 3 == 0,
            i <= indices.len(),
            indices.len() >= old(indices).len(),
            settled(sites@, indices@, i as int, m),
            keeps(old(sites)@, sites@),
            cuts_ok(sites@, old(sites).len() as int, m),
            0 <= budget(sites@, indices@, i as int, m) <= fuel,
            tesselated_axis(sites@, indices@, i as int, modulo, fuel as nat) == goal,
        decreases budget(sites@, indices@, i as int, m),
    {
        let a: usize = indices[i];
        let b: usize = indices[i + 1];
        let c: usize = indices[i + 2];
        let ghost v0 = sites@;
        let ghost ind0 = indices@;
        proof {
            lemma_pending_positive(v0, ind0, i + 3, m);
            let lo = tri_low(v0, a, b, c);
            let hi = tri_high(v0, a, b, c);
            lemma_lines_shrink(lo, hi, lo, hi, m);
        }
        if let Some(rest) = split_if_necessary(a, b, c, sites, indices, modulo) {
            let ghost ind1 = indices@;
            indices[i] = rest[0];
            indices[i + 1] = rest[1];
            indices[i + 2] = rest[2];
            proof {
                let v1 = sites@;
                let ind2 = indices@;
                assert(ind2 =~= with_rest(ind1, i as int, rest));
                lemma_pending_same(v1, ind2, ind1, i + 3, m);
                lemma_pending_pushed(v1, ind0, ind1, i + 3, m);
                lemma_pending_extended(v0, v1, ind0, i + 3, m);
                lemma_pending_positive(v1, ind2, i + 3, m);
                let lo = tri_low(v1, rest[0], rest[1], rest[2]);
                let hi = tri_high(v1, rest[0], rest[1], rest[2]);
                lemma_lines_shrink(lo, hi, lo, hi, m);
                lemma_settled_after_split(v0, ind0, v1, ind1, rest, i as int, modulo);
                lemma_cuts_chain(old(sites)@, v0, v1, old(sites).len() as int, m);
            }
        } else {
            proof {
                assert(crossed_at(sites@, indices@, i as int, m) == 0);
            }
            i = i + 3;
        }
        proof {
            fuel = fuel - 1;
        }
    }
    proof {
        lemma_settled_fits(sites@, indices@, m);
    }
}

} // verus!
