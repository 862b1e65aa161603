//! Ear-clipping triangulation of polygons whose vertices lie on an integer
//! grid, and the cut of a triangle mesh along the grid lines of an axis.
//!
//! All arithmetic is exact: coordinates are `i32`, intermediate products are
//! `i128`, and every comparison of quotients is made by cross-multiplication.
//! The cut decides on whole numbers too: it is told where each vertex stands
//! along the axis, and names each new vertex by its edge and its grid line;
//! no coordinate is rounded.
//!
//! Every function states what it computes over a model of the node arena as
//! a sequence of nodes. Beside these models stand the laws of rings and of
//! the z-order list: what the steps of the triangulation do to a ring whose
//! nodes are linked in a circle, and to a list whose nodes are linked in a
//! row. For strictly convex polygons the result is pinned down further: as
//! many triangles as vertices, less two, and together they have the area of
//! the polygon. The cut leaves no triangle across a grid line and keeps the
//! area of the mesh.

pub mod area;
pub mod arena;
pub mod convex;
pub mod earcut;
pub mod geometry;
pub mod holes;
pub mod polygon;
pub mod ring;
pub mod tesselate;
pub mod zlist;
pub mod zorder;

pub use crate::arena::Node;
pub use crate::earcut::{earcut, earcut_impl, Store};
pub use crate::geometry::signed_area;
pub use crate::polygon::{
    convert_2d, convert_3d, deviation, earclip, flatten, with_offset, Deviation, Index, Point2D,
    Point3D,
};
pub use crate::tesselate::{tesselate, Site};
