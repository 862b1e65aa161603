//! Polygons given ring by ring: flattening them into one coordinate buffer,
//! triangulating them in one call, and measuring a triangulation against
//! the polygon's area.

use vstd::prelude::*;
use crate::earcut::{earcut, input_ok, outer_end, triangulation};
use crate::geometry::{
    lemma_aligned, lemma_aligned_diff, lemma_product_bound, lemma_scaled_order, mul_small,
    shoelace, signed_area,
};
use crate::holes::{hole_end, holes_ok};

verus! {

/// An unsigned integer type that vertex numbers are handed out in.
pub trait Index: Copy {
    /// The vertex number that the index stands for.
    spec fn number(self) -> usize;

    /// The index that stands for the vertex number `v`: the number itself
    /// where the type can hold it, else its lowest bits.
    spec fn of_number(v: usize) -> Self;

    /// Cast to usize.
    fn into_usize(self) -> (v: usize)
        ensures
            v == self.number(),
    ;

    /// Cast from usize.
    fn from_usize(v: usize) -> (i: Self)
        ensures
            i == Self::of_number(v),
    ;
}

impl Index for u16 {
    open spec fn number(self) -> usize {
        self as usize
    }

    open spec fn of_number(v: usize) -> Self {
        v as u16
    }

    fn into_usize(self) -> usize {
        self as usize
    }

    fn from_usize(v: usize) -> Self {
        #[verifier::truncate]
        (v as u16)
    }
}

impl Index for usize {
    open spec fn number(self) -> usize {
        self
    }

    open spec fn of_number(v: usize) -> Self {
        v
    }

    fn into_usize(self) -> usize {
        self
    }

    fn from_usize(v: usize) -> Self {
        v
    }
}

impl Index for u32 {
    open spec fn number(self) -> usize {
        self as usize
    }

    open spec fn of_number(v: usize) -> Self {
        v as u32
    }

    fn into_usize(self) -> usize {
        self as usize
    }

    fn from_usize(v: usize) -> Self {
        #[verifier::truncate]
        (v as u32)
    }
}

/// The coordinates that a point gives to the buffer: its first three where
/// it has that many, else its first two.
pub open spec fn point_coords(p: Seq<i32>) -> Seq<i32> {
    if p.len() > 2 {
        seq![p[0], p[1], p[2]]
    } else {
        seq![p[0], p[1]]
    }
}

/// The coordinates of the first `n` points of a ring.
pub open spec fn ring_coords(ring: Seq<Vec<i32>>, n: int) -> Seq<i32>
    decreases n,
{
    if n <= 0 {
        Seq::empty()
    } else {
        ring_coords(ring, n - 1) + point_coords(ring[n - 1]@)
    }
}

/// The coordinates of the first `n` rings of a polygon.
pub open spec fn rings_coords(data: Seq<Vec<Vec<i32>>>, n: int) -> Seq<i32>
    decreases n,
{
    if n <= 0 {
        Seq::empty()
    } else {
        rings_coords(data, n - 1) + ring_coords(data[n - 1]@, data[n - 1]@.len() as int)
    }
}

/// The number of points in the first `n` rings of a polygon.
pub open spec fn points_before(data: Seq<Vec<Vec<i32>>>, n: int) -> int
    decreases n,
{
    if n <= 0 {
        0
    } else {
        points_before(data, n - 1) + data[n - 1]@.len()
    }
}

/// Whether one of the first `n` points of a ring has a third coordinate.
pub open spec fn ring_deep(ring: Seq<Vec<i32>>, n: int) -> bool
    decreases n,
{
    n > 0 && (ring_deep(ring, n - 1) || ring[n - 1]@.len() > 2)
}

/// Whether a point in the first `n` rings of a polygon has a third
/// coordinate.
pub open spec fn rings_deep(data: Seq<Vec<Vec<i32>>>, n: int) -> bool
    decreases n,
{
    n > 0 && (rings_deep(data, n - 1) || ring_deep(data[n - 1]@, data[n - 1]@.len() as int))
}

/// Whether every point of the polygon has at least two coordinates.
pub open spec fn points_ok(data: Seq<Vec<Vec<i32>>>) -> bool {
    forall|r: int, p: int|
        0 <= r < data.len() && 0 <= p < data[r]@.len() ==> (#[trigger] data[r]@[p])@.len() >= 2
}

/// Whether the points of the polygon agree on their dimension: all have two
/// coordinates, or all have three or more.
pub open spec fn uniform(data: Seq<Vec<Vec<i32>>>) -> bool {
    ||| forall|r: int, p: int|
        0 <= r < data.len() && 0 <= p < data[r]@.len() ==> (#[trigger] data[r]@[p])@.len() == 2
    ||| forall|r: int, p: int|
        0 <= r < data.len() && 0 <= p < data[r]@.len() ==> (#[trigger] data[r]@[p])@.len() >= 3
}

/// The number of coordinates per vertex in the buffer of a polygon.
pub open spec fn width(data: Seq<Vec<Vec<i32>>>) -> usize {
    if rings_deep(data, data.len() as int) {
        3
    } else {
        2
    }
}

/// The vertices at which the holes of a polygon start in its buffer: each
/// ring but the first is a hole.
pub open spec fn hole_starts(data: Seq<Vec<Vec<i32>>>) -> Seq<usize> {
    Seq::new(
        if data.len() > 0 {
            (data.len() - 1) as nat
        } else {
            0
        },
        |k: int| points_before(data, k + 1) as usize,
    )
}

/// The number of points in the first rings of a polygon does not fall when
/// more rings are counted.
pub proof fn lemma_points_grow(data: Seq<Vec<Vec<i32>>>, j: int, k: int)
    requires
        0 <= j <= k,
    ensures
        0 <= points_before(data, j) <= points_before(data, k),
    decreases k,
{
    if j < k {
        lemma_points_grow(data, j, k - 1);
    } else if j > 0 {
        lemma_points_grow(data, j - 1, j - 1);
        lemma_points_grow(data, 0, j - 1);
    }
}

/// Where the first `j` rings hold a point with a third coordinate, so do
/// the first `k`.
pub proof fn lemma_deep_stays(data: Seq<Vec<Vec<i32>>>, j: int, k: int)
    requires
        0 <= j <= k,
        rings_deep(data, j),
    ensures
        rings_deep(data, k),
    decreases k,
{
    if j < k {
        lemma_deep_stays(data, j, k - 1);
    }
}

/// Where the first `j` points of a ring hold one with a third coordinate,
/// so do the first `k`.
pub proof fn lemma_ring_deep_stays(ring: Seq<Vec<i32>>, j: int, k: int)
    requires
        0 <= j <= k,
        ring_deep(ring, j),
    ensures
        ring_deep(ring, k),
    decreases k,
{
    if j < k {
        lemma_ring_deep_stays(ring, j, k - 1);
    }
}

/// Flattens a polygon that is given ring by ring, the outer ring first,
/// into one coordinate buffer. Returns the buffer, the vertices at which
/// the holes start, and the number of coordinates per vertex: three where a
/// point has a third coordinate, else two.
pub fn flatten(data: &[Vec<Vec<i32>>]) -> (flat: (Vec<i32>, Vec<usize>, usize))
    requires
        points_ok(data@),
    ensures
        flat.0@ == rings_coords(data@, data.len() as int),
        flat.1@ == hole_starts(data@),
        flat.2 == width(data@),
        uniform(data@) ==> flat.0.len() == flat.2 * points_before(data@, data.len() as int),
        2 * points_before(data@, data.len() as int) <= flat.0.len(),
{
    let mut vertices: Vec<i32> = Vec::new();
    let mut hole_indices: Vec<usize> = Vec::new();
    let mut hole_index: usize = 0;
    let mut dim: usize = 2;
    let mut i: usize = 0;
    while i < data.len()
        invariant
            points_ok(data@),
            i <= data.len(),
            vertices@ == rings_coords(data@, i as int),
            hole_indices.len() == (if i > 0 { i - 1 } else { 0 }),
            forall|k: int|
                0 <= k < hole_indices.len() ==> hole_indices@[k] == points_before(data@, k + 1),
            i > 0 ==> hole_index == points_before(data@, i - 1),
            i == 0 ==> hole_index == 0,
            2 * points_before(data@, i as int) <= vertices.len(),
            dim == (if rings_deep(data@, i as int) { 3usize } else { 2usize }),
            uniform(data@) ==> vertices.len() == dim * points_before(data@, i as int),
        decreases data.len() - i,
    {
        let ring: &Vec<Vec<i32>> = &data[i];
        let mut j: usize = 0;
        let ghost before = vertices@;
        let ghost deep = rings_deep(data@, i as int);
        while j < ring.len()
            invariant
                points_ok(data@),
                i < data.len(),
                ring == data@[i as int],
                j <= ring.len(),
                before == rings_coords(data@, i as int),
                vertices@ == before + ring_coords(ring@, j as int),
                2 * (points_before(data@, i as int) + j) <= vertices.len(),
                deep == rings_deep(data@, i as int),
                dim == (if deep || ring_deep(ring@, j as int) { 3usize } else { 2usize }),
                uniform(data@) ==> vertices.len() == dim * (points_before(data@, i as int) + j),
            decreases ring.len() - j,
        {
            let point: &Vec<i32> = &ring[j];
            assert(point@.len() >= 2) by {
                assert(data@[i as int]@[j as int] == point);
            }
            let ghost prior = vertices@;
            vertices.push(point[0]);
            vertices.push(point[1]);
            if point.len() > 2 {
                vertices.push(point[2]);
                dim = 3;
            }
            proof {
                assert(vertices@ =~= prior + point_coords(point@));
                assert(before + ring_coords(ring@, j + 1) =~= prior + point_coords(point@));
                if uniform(data@) {
                    lemma_uniform_width(data@, i as int, j as int);
                    assert(vertices.len() == dim * (points_before(data@, i as int) + j + 1))
                        by (nonlinear_arith)
                        requires
                            prior.len() == (if point@.len() > 2 {
                                3int
                            } else {
                                2int
                            }) * (points_before(data@, i as int) + j) || points_before(
                                data@,
                                i as int,
                            ) + j == 0,
                            vertices.len() == prior.len() + (if point@.len() > 2 {
                                3int
                            } else {
                                2int
                            }),
                            dim == (if point@.len() > 2 {
                                3int
                            } else {
                                2int
                            }),
                            prior.len() == 0 <== points_before(data@, i as int) + j == 0,
                    ;
                }
            }
            j = j + 1;
        }
        proof {
            lemma_points_grow(data@, 0, i as int);
        }
        if i > 0 {
            hole_index = hole_index + data[i - 1].len();
            hole_indices.push(hole_index);
        }
        i = i + 1;
    }
    proof {
        assert(hole_indices@ =~= hole_starts(data@));
    }
    (vertices, hole_indices, dim)
}

/// In a polygon whose points agree on their dimension, every point before
/// the point `j` of ring `i` has as many coordinates as that point gives to
/// the buffer.
pub proof fn lemma_uniform_width(data: Seq<Vec<Vec<i32>>>, i: int, j: int)
    requires
        uniform(data),
        points_ok(data),
        0 <= i < data.len(),
        0 <= j < data[i]@.len(),
    ensures
        data[i]@[j]@.len() > 2 ==> (rings_deep(data, i) || ring_deep(data[i]@, j)
            || points_before(data, i) + j == 0),
        data[i]@[j]@.len() <= 2 ==> !rings_deep(data, i) && !ring_deep(data[i]@, j),
{
    lemma_points_grow(data, 0, i);
    if data[i]@[j]@.len() > 2 {
        if points_before(data, i) + j > 0 {
            if j > 0 {
                assert(data[i]@[j - 1]@.len() >= 3);
                lemma_ring_deep_stays(data[i]@, j, j);
                assert(ring_deep(data[i]@, j));
            } else {
                lemma_some_point(data, i);
            }
        }
    } else {
        lemma_flat_rings(data, i);
        lemma_flat_ring(data, i, j);
    }
}

/// Where the first `i` rings of a polygon hold a point, and every point has
/// three or more coordinates, they are deep.
pub proof fn lemma_some_point(data: Seq<Vec<Vec<i32>>>, i: int)
    requires
        0 <= i <= data.len(),
        points_before(data, i) > 0,
        forall|r: int, p: int|
            0 <= r < data.len() && 0 <= p < data[r]@.len() ==> (#[trigger] data[r]@[p])@.len() >= 3,
    ensures
        rings_deep(data, i),
    decreases i,
{
    if i > 0 {
        if data[i - 1]@.len() > 0 {
            let n = data[i - 1]@.len() as int;
            assert(data[i - 1]@[n - 1]@.len() >= 3);
            assert(ring_deep(data[i - 1]@, n));
        } else {
            lemma_some_point(data, i - 1);
        }
    }
}

/// Where every point of a polygon has two coordinates, no ring is deep.
pub proof fn lemma_flat_rings(data: Seq<Vec<Vec<i32>>>, i: int)
    requires
        0 <= i <= data.len(),
        forall|r: int, p: int|
            0 <= r < data.len() && 0 <= p < data[r]@.len() ==> (#[trigger] data[r]@[p])@.len() == 2,
    ensures
        !rings_deep(data, i),
    decreases i,
{
    if i > 0 {
        lemma_flat_rings(data, i - 1);
        lemma_flat_ring(data, i - 1, data[i - 1]@.len() as int);
    }
}

/// Where every point of a polygon has two coordinates, no part of a ring is
/// deep.
pub proof fn lemma_flat_ring(data: Seq<Vec<Vec<i32>>>, i: int, j: int)
    requires
        0 <= i < data.len(),
        0 <= j <= data[i]@.len(),
        forall|r: int, p: int|
            0 <= r < data.len() && 0 <= p < data[r]@.len() ==> (#[trigger] data[r]@[p])@.len() == 2,
    ensures
        !ring_deep(data[i]@, j),
    decreases j,
{
    if j > 0 {
        lemma_flat_ring(data, i, j - 1);
        assert(data[i]@[j - 1]@.len() == 2);
    }
}

/// The sum of a vertex number and an offset, which starts again at zero
/// behind the greatest number.
pub open spec fn wrapped_sum(i: usize, offset: usize) -> usize {
    if i + offset <= usize::MAX {
        (i + offset) as usize
    } else {
        (i + offset - usize::MAX - 1) as usize
    }
}

/// The number that an optional offset stands for.
pub open spec fn offset_number<N: Index>(offset: Option<N>) -> usize {
    match offset {
        Some(o) => o.number(),
        None => 0,
    }
}

/// The mesh of a polygon: its coordinate buffer and its triangles.
pub open spec fn clipped(data: Seq<Vec<Vec<i32>>>) -> (Seq<i32>, Seq<usize>) {
    let vertices = rings_coords(data, data.len() as int);
    (vertices, triangulation(vertices, hole_starts(data), width(data)))
}

/// Whether `v` is a vertex of the buffer.
pub open spec fn is_vertex(vertices: Seq<i32>, v: usize, dim: usize) -> bool {
    v * dim + dim <= vertices.len()
}

/// The coordinates of a vertex of the buffer stand in the buffer.
pub proof fn lemma_vertex_fits(v: usize, k: int, dim: usize, len: int)
    requires
        v * dim + dim <= len,
        0 <= k < dim,
    ensures
        0 <= v * dim + k < len,
        v * dim <= len,
{
    assert(0 <= v * dim) by (nonlinear_arith);
}

/// Whether the index list holds whole triangles between vertices of the
/// buffer, and the buffer whole vertices.
pub open spec fn mesh_ok(vertices: Seq<i32>, indices: Seq<usize>, dim: usize) -> bool {
    &&& dim >= 1
    &&& vertices.len() % (dim as nat) == 0
    &&& indices.len() % 3 == 0
    &&& forall|j: int| 0 <= j < indices.len() ==> is_vertex(vertices, #[trigger] indices[j], dim)
}

/// What `earclip` asks of a polygon: every point has two coordinates, or
/// every point has three or more.
pub open spec fn polygon_ok(data: Seq<Vec<Vec<i32>>>) -> bool {
    points_ok(data) && uniform(data)
}

/// The buffer of a polygon whose points agree on their dimension, with the
/// vertices at which its holes start, is what a triangulation asks for.
pub proof fn lemma_flat_input(data: Seq<Vec<Vec<i32>>>, vertices: Seq<i32>)
    requires
        polygon_ok(data),
        vertices.len() == width(data) * points_before(data, data.len() as int),
        2 * points_before(data, data.len() as int) <= vertices.len() <= usize::MAX,
    ensures
        input_ok(vertices, hole_starts(data), width(data)),
{
    let dim = width(data) as int;
    let total = points_before(data, data.len() as int);
    let holes = hole_starts(data);
    vstd::arithmetic::div_mod::lemma_mod_multiples_basic(total, dim);
    assert(total * dim == dim * total) by (nonlinear_arith);
    assert forall|k: int| 0 <= k < holes.len() implies (#[trigger] holes[k]) * dim
        <= vertices.len() by {
        lemma_points_grow(data, k + 1, data.len() as int);
        lemma_points_grow(data, 0, k + 1);
        let h = points_before(data, k + 1);
        assert(h * dim <= dim * total) by (nonlinear_arith)
            requires
                0 <= h <= total,
                dim >= 2,
        ;
    }
    assert forall|j: int, k: int| 0 <= j <= k < holes.len() implies holes[j] <= holes[k] by {
        lemma_points_grow(data, j + 1, k + 1);
        lemma_points_grow(data, k + 1, data.len() as int);
        lemma_points_grow(data, 0, j + 1);
    }
}

/// Whole triangles between vertices of the buffer are a mesh.
pub proof fn lemma_triangles_fit(vertices: Seq<i32>, tris: Seq<usize>, dim: usize)
    requires
        dim >= 1,
        vertices.len() % (dim as nat) == 0,
        tris.len() % 3 == 0,
        forall|t: int| 0 <= t < tris.len() ==> tris[t] < vertices.len() / (dim as nat),
    ensures
        mesh_ok(vertices, tris, dim),
{
    assert forall|j: int| 0 <= j < tris.len() implies is_vertex(vertices, #[trigger] tris[j], dim) by {
        let n = vertices.len() as int / dim as int;
        vstd::arithmetic::div_mod::lemma_fundamental_div_mod(vertices.len() as int, dim as int);
        let v = tris[j] as int;
        assert(v * dim + dim <= vertices.len()) by (nonlinear_arith)
            requires
                0 <= v < n,
                vertices.len() == dim * n + 0,
                dim >= 1,
        ;
    }
}

/// The vertex numbers with `offset` added to each; a sum that does not fit
/// wraps round.
pub fn with_offset<N: Index>(indices: &[usize], offset: Option<N>) -> (shifted: Vec<N>)
    ensures
        shifted@.len() == indices@.len(),
        forall|k: int|
            0 <= k < shifted@.len() ==> shifted@[k] == N::of_number(
                wrapped_sum(indices@[k], offset_number(offset)),
            ),
{
    let shift: usize = match offset {
        Some(o) => o.into_usize(),
        None => 0,
    };
    let mut shifted: Vec<N> = Vec::new();
    let mut k: usize = 0;
    while k < indices.len()
        invariant
            k <= indices.len(),
            shifted.len() == k,
            forall|j: int|
                0 <= j < k ==> shifted@[j] == N::of_number(wrapped_sum(indices@[j], shift)),
        decreases indices.len() - k,
    {
        let i: usize = indices[k];
        let sum: usize = if i <= usize::MAX - shift {
            i + shift
        } else {
            i - (usize::MAX - shift) - 1
        };
        shifted.push(N::from_usize(sum));
        k = k + 1;
    }
    shifted
}

/// Triangulates a polygon that is given ring by ring, the outer ring first.
/// Returns the coordinate buffer and the triangles, three vertex numbers
/// each, with `offset` added to every number.
pub fn earclip<N: Index>(polygon: &[Vec<Vec<i32>>], offset: Option<N>) -> (mesh: (Vec<i32>, Vec<N>))
    requires
        polygon_ok(polygon@),
    ensures
        mesh.0@ == clipped(polygon@).0,
        mesh.1@.len() == clipped(polygon@).1.len(),
        forall|k: int|
            0 <= k < mesh.1@.len() ==> mesh.1@[k] == N::of_number(
                wrapped_sum(clipped(polygon@).1[k], offset_number(offset)),
            ),
        mesh_ok(mesh.0@, clipped(polygon@).1, width(polygon@)),
{
    let (vertices, hole_indices, dim) = flatten(polygon);
    proof {
        lemma_flat_input(polygon@, vertices@);
    }
    let indices: Vec<usize> = earcut(vertices.as_slice(), hole_indices.as_slice(), dim);
    proof {
        lemma_triangles_fit(vertices@, indices@, dim);
    }
    let shifted: Vec<N> = with_offset(indices.as_slice(), offset);
    (vertices, shifted)
}

/// A point of the plane.
pub trait Point2D {
    /// The first coordinate of the point.
    spec fn x_of(&self) -> i32;

    /// The second coordinate of the point.
    spec fn y_of(&self) -> i32;

    /// Get the x-coordinate.
    fn x(&self) -> (v: i32)
        ensures
            v == self.x_of(),
    ;

    /// Get the y-coordinate.
    fn y(&self) -> (v: i32)
        ensures
            v == self.y_of(),
    ;
}

/// A point of space.
pub trait Point3D {
    /// The first coordinate of the point.
    spec fn x_of(&self) -> i32;

    /// The second coordinate of the point.
    spec fn y_of(&self) -> i32;

    /// The third coordinate of the point.
    spec fn z_of(&self) -> i32;

    /// Get the x-coordinate.
    fn x(&self) -> (v: i32)
        ensures
            v == self.x_of(),
    ;

    /// Get the y-coordinate.
    fn y(&self) -> (v: i32)
        ensures
            v == self.y_of(),
    ;

    /// Get the z-coordinate.
    fn z(&self) -> (v: i32)
        ensures
            v == self.z_of(),
    ;
}

impl Point2D for (i32, i32) {
    open spec fn x_of(&self) -> i32 {
        self.0
    }

    open spec fn y_of(&self) -> i32 {
        self.1
    }

    fn x(&self) -> i32 {
        self.0
    }

    fn y(&self) -> i32 {
        self.1
    }
}

impl Point3D for (i32, i32, i32) {
    open spec fn x_of(&self) -> i32 {
        self.0
    }

    open spec fn y_of(&self) -> i32 {
        self.1
    }

    open spec fn z_of(&self) -> i32 {
        self.2
    }

    fn x(&self) -> i32 {
        self.0
    }

    fn y(&self) -> i32 {
        self.1
    }

    fn z(&self) -> i32 {
        self.2
    }
}

/// Whether `out` holds, ring by ring and point by point, the two
/// coordinates of the points of `data`.
pub open spec fn converted_2d<P: Point2D>(data: Seq<Vec<P>>, out: Seq<Vec<Vec<i32>>>) -> bool {
    &&& out.len() == data.len()
    &&& forall|r: int| 0 <= r < data.len() ==> (#[trigger] out[r])@.len() == data[r]@.len()
    &&& forall|r: int, p: int|
        0 <= r < data.len() && 0 <= p < data[r]@.len() ==> (#[trigger] out[r]@[p])@ == seq![
            data[r]@[p].x_of(),
            data[r]@[p].y_of(),
        ]
}

/// Whether `out` holds, ring by ring and point by point, the three
/// coordinates of the points of `data`.
pub open spec fn converted_3d<P: Point3D>(data: Seq<Vec<P>>, out: Seq<Vec<Vec<i32>>>) -> bool {
    &&& out.len() == data.len()
    &&& forall|r: int| 0 <= r < data.len() ==> (#[trigger] out[r])@.len() == data[r]@.len()
    &&& forall|r: int, p: int|
        0 <= r < data.len() && 0 <= p < data[r]@.len() ==> (#[trigger] out[r]@[p])@ == seq![
            data[r]@[p].x_of(),
            data[r]@[p].y_of(),
            data[r]@[p].z_of(),
        ]
}

/// Writes the rings of a polygon of points as rings of coordinate pairs.
pub fn convert_2d<P: Point2D>(data: &[Vec<P>]) -> (out: Vec<Vec<Vec<i32>>>)
    ensures
        converted_2d(data@, out@),
{
    let mut out: Vec<Vec<Vec<i32>>> = Vec::new();
    let mut r: usize = 0;
    while r < data.len()
        invariant
            r <= data.len(),
            out.len() == r,
            forall|i: int| 0 <= i < r ==> (#[trigger] out@[i])@.len() == data@[i]@.len(),
            forall|i: int, p: int|
                0 <= i < r && 0 <= p < data@[i]@.len() ==> (#[trigger] out@[i]@[p])@ == seq![
                    data@[i]@[p].x_of(),
                    data@[i]@[p].y_of(),
                ],
        decreases data.len() - r,
    {
        let line: &Vec<P> = &data[r];
        let mut ring: Vec<Vec<i32>> = Vec::new();
        let mut p: usize = 0;
        while p < line.len()
            invariant
                p <= line.len(),
                ring.len() == p,
                forall|j: int|
                    0 <= j < p ==> (#[trigger] ring@[j])@ == seq![line@[j].x_of(), line@[j].y_of()],
            decreases line.len() - p,
        {
            let mut point: Vec<i32> = Vec::new();
            point.push(line[p].x());
            point.push(line[p].y());
            assert(point@ =~= seq![line@[p as int].x_of(), line@[p as int].y_of()]);
            ring.push(point);
            p = p + 1;
        }
        out.push(ring);
        r = r + 1;
    }
    out
}

/// Writes the rings of a polygon of points as rings of coordinate triples.
pub fn convert_3d<P: Point3D>(data: &[Vec<P>]) -> (out: Vec<Vec<Vec<i32>>>)
    ensures
        converted_3d(data@, out@),
{
    let mut out: Vec<Vec<Vec<i32>>> = Vec::new();
    let mut r: usize = 0;
    while r < data.len()
        invariant
            r <= data.len(),
            out.len() == r,
            forall|i: int| 0 <= i < r ==> (#[trigger] out@[i])@.len() == data@[i]@.len(),
            forall|i: int, p: int|
                0 <= i < r && 0 <= p < data@[i]@.len() ==> (#[trigger] out@[i]@[p])@ == seq![
                    data@[i]@[p].x_of(),
                    data@[i]@[p].y_of(),
                    data@[i]@[p].z_of(),
                ],
        decreases data.len() - r,
    {
        let line: &Vec<P> = &data[r];
        let mut ring: Vec<Vec<i32>> = Vec::new();
        let mut p: usize = 0;
        while p < line.len()
            invariant
                p <= line.len(),
                ring.len() == p,
                forall|j: int|
                    0 <= j < p ==> (#[trigger] ring@[j])@ == seq![
                        line@[j].x_of(),
                        line@[j].y_of(),
                        line@[j].z_of(),
                    ],
            decreases line.len() - p,
        {
            let mut point: Vec<i32> = Vec::new();
            point.push(line[p].x());
            point.push(line[p].y());
            point.push(line[p].z());
            assert(point@ =~= seq![
                line@[p as int].x_of(),
                line@[p as int].y_of(),
                line@[p as int].z_of(),
            ]);
            ring.push(point);
            p = p + 1;
        }
        out.push(ring);
        r = r + 1;
    }
    out
}

/// The absolute value of a number.
pub open spec fn magnitude(v: int) -> int {
    if v >= 0 {
        v
    } else {
        -v
    }
}

/// Twice the area of the holes from `k` on.
pub open spec fn holes_area(data: Seq<i32>, holes: Seq<usize>, dim: int, k: int) -> int
    decreases (if k < holes.len() { holes.len() - k } else { 0 }),
{
    if 0 <= k < holes.len() {
        magnitude(shoelace(data, holes[k] * dim, hole_end(data, holes, dim, k), dim)) + holes_area(
            data,
            holes,
            dim,
            k + 1,
        )
    } else {
        0
    }
}

/// Twice the area of the polygon: that of the outer ring, less that of the
/// holes.
pub open spec fn polygon_area(data: Seq<i32>, holes: Seq<usize>, dim: usize) -> int {
    magnitude(shoelace(data, 0, outer_end(data, holes, dim), dim as int)) - holes_area(
        data,
        holes,
        dim as int,
        0,
    )
}

/// Twice the area of the triangle between the vertices `a`, `b` and `c`.
pub open spec fn triangle_area(data: Seq<i32>, a: usize, b: usize, c: usize, dim: usize) -> int {
    magnitude(
        (data[a * dim] - data[c * dim]) * (data[b * dim + 1] - data[a * dim + 1]) - (data[a * dim]
            - data[b * dim]) * (data[c * dim + 1] - data[a * dim + 1]),
    )
}

/// Twice the area of the triangles from position `i` of the list on.
pub open spec fn triangles_area(data: Seq<i32>, tris: Seq<usize>, dim: usize, i: int) -> int
    decreases (if i < tris.len() { tris.len() - i } else { 0 }),
{
    if 0 <= i && i + 3 <= tris.len() {
        triangle_area(data, tris[i], tris[i + 1], tris[i + 2], dim) + triangles_area(
            data,
            tris,
            dim,
            i + 3,
        )
    } else {
        0
    }
}

/// The area of a polygon and the area of a triangulation of it, both
/// doubled. The triangulation covers the polygon exactly where the two are
/// equal.
#[derive(Clone, Copy, Debug)]
pub struct Deviation {
    /// Twice the area of the polygon.
    pub polygon: i128,
    /// Twice the sum of the areas of the triangles.
    pub triangles: u128,
}

/// The absolute value of a number above the least one.
pub fn abs_wide(v: i128) -> (m: u128)
    requires
        v > i128::MIN,
    ensures
        m == magnitude(v as int),
{
    if v >= 0 {
        v as u128
    } else {
        (-v) as u128
    }
}

/// Measures a triangulation against its polygon: returns the area of the
/// polygon, as the area of the outer ring less the areas of the holes, and
/// the sum of the areas of the triangles.
pub fn deviation(data: &[i32], hole_indices: &[usize], triangles: &[usize], dim: usize) -> (d:
    Deviation)
    requires
        input_ok(data@, hole_indices@, dim),
        triangles.len() % 3 == 0,
        forall|t: int| 0 <= t < triangles.len() ==> triangles[t] < data.len() / dim,
    ensures
        d.polygon == polygon_area(data@, hole_indices@, dim),
        d.triangles == triangles_area(data@, triangles@, dim, 0),
{
    let has_holes: bool = hole_indices.len() > 0;
    assert(holes_ok(data@, hole_indices@, dim as int));
    assert(has_holes ==> hole_indices@[0] * dim <= data.len());
    let outer_len: usize = if has_holes {
        hole_indices[0] * dim
    } else {
        data.len()
    };
    proof {
        if has_holes {
            lemma_aligned_diff(hole_indices@[0] as int, 0, dim as int);
        }
    }
    let outer: u128 = abs_wide(signed_area(data, 0, outer_len, dim));
    let mut inner: u128 = 0;
    let mut k: usize = 0;
    while k < hole_indices.len()
        invariant
            input_ok(data@, hole_indices@, dim),
            k <= hole_indices.len(),
            k < hole_indices.len() ==> inner <= hole_indices@[k as int] * dim
                * 0x8000_0000_0000_0000,
            k == hole_indices.len() ==> inner <= data.len() * 0x8000_0000_0000_0000,
            inner + holes_area(data@, hole_indices@, dim as int, k as int) == holes_area(
                data@,
                hole_indices@,
                dim as int,
                0,
            ),
        decreases hole_indices.len() - k,
    {
        assert(holes_ok(data@, hole_indices@, dim as int));
        assert(hole_indices@[k as int] * dim <= data.len());
        assert(k < hole_indices.len() - 1 ==> hole_indices@[k + 1] * dim <= data.len());
        let start: usize = hole_indices[k] * dim;
        let end: usize = if k < hole_indices.len() - 1 {
            hole_indices[k + 1] * dim
        } else {
            data.len()
        };
        proof {
            if k < hole_indices.len() - 1 {
                lemma_scaled_order(
                    hole_indices@[k as int] as int,
                    hole_indices@[k + 1] as int,
                    dim as int,
                );
                lemma_aligned_diff(
                    hole_indices@[k + 1] as int,
                    hole_indices@[k as int] as int,
                    dim as int,
                );
            } else {
                lemma_aligned(data.len() as int, hole_indices@[k as int] as int, dim as int);
            }
        }
        inner = inner + abs_wide(signed_area(data, start, end, dim));
        k = k + 1;
    }
    let mut sum: u128 = 0;
    let mut i: usize = 0;
    while i < triangles.len()
        invariant
            dim >= 2,
            data.len() % dim == 0,
            triangles.len() % 3 == 0,
            i % 3 == 0,
            i <= triangles.len(),
            forall|t: int| 0 <= t < triangles.len() ==> triangles[t] < data.len() / dim,
            sum <= i * 0x1_0000_0000_0000_0000,
            sum + triangles_area(data@, triangles@, dim, i as int) == triangles_area(
                data@,
                triangles@,
                dim,
                0,
            ),
        decreases triangles.len() - i,
    {
        proof {
            lemma_triangles_fit(data@, triangles@, dim);
            lemma_vertex_fits(triangles@[i as int], 1, dim, data.len() as int);
            lemma_vertex_fits(triangles@[i + 1], 1, dim, data.len() as int);
            lemma_vertex_fits(triangles@[i + 2], 1, dim, data.len() as int);
            lemma_vertex_fits(triangles@[i as int], 0, dim, data.len() as int);
            lemma_vertex_fits(triangles@[i + 1], 0, dim, data.len() as int);
            lemma_vertex_fits(triangles@[i + 2], 0, dim, data.len() as int);
        }
        let a: usize = triangles[i] * dim;
        let b: usize = triangles[i + 1] * dim;
        let c: usize = triangles[i + 2] * dim;
        let first: i128 = mul_small(
            data[a] as i64 - data[c] as i64,
            data[b + 1] as i64 - data[a + 1] as i64,
        );
        let second: i128 = mul_small(
            data[a] as i64 - data[b] as i64,
            data[c + 1] as i64 - data[a + 1] as i64,
        );
        proof {
            lemma_product_bound(
                data@[a as int] - data@[c as int],
                data@[b + 1] - data@[a + 1],
                0xffff_ffff,
                0xffff_ffff,
            );
            lemma_product_bound(
                data@[a as int] - data@[b as int],
                data@[c + 1] - data@[a + 1],
                0xffff_ffff,
                0xffff_ffff,
            );
        }
        sum = sum + abs_wide(first - second);
        i = i + 3;
    }
    Deviation { polygon: outer as i128 - inner as i128, triangles: sum }
}

} // verus!
