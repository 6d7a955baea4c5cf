//! Planar cross-sections of triangle meshes, and the union of the polygons
//! that they yield, on an integer lattice.
//!
//! A mesh is cut by a horizontal plane ([`model`]); the fragments that the
//! cut leaves are welded into a pool of points ([`welder`]) and stitched
//! into contours ([`stitcher`]). Two closed polygons are united by putting
//! their crossings into both ([`crossing`]), listing the steps that lead on
//! from each point ([`graph`]) and walking the outer boundary ([`trace`]).
//!
//! All coordinates are whole numbers of lattice units, and all arithmetic
//! on them is exact ([`geometry`]): the same input gives the same output,
//! bit for bit. A caller that works in other units scales them first; with
//! a thousand lattice units to the model unit the default tolerance of the
//! welder is a hundredth of a model unit.
//!
//! Each function states what it computes over the contents of its
//! arguments: a polyline is a [`polygons::Path`], a mesh a [`model::Mesh`],
//! a pool of welded points a [`welder::Pool`].

pub mod crossing;
pub mod geometry;
pub mod graph;
pub mod model;
pub mod polygons;
pub mod stitcher;
pub mod trace;
pub mod util;
pub mod welder;
