//! Integer and string core of a Monte-Carlo renderer.
//!
//! The renderer proper — vector math, shape intersection, the path tracer and
//! the photon mapper — works on floating-point numbers and lives in the
//! unverified driver around this crate.  What is verified here is the part of
//! the pipeline that is exact: choosing an output encoding from a file name,
//! the pixel buffer with its flips, the bookkeeping of the stack of
//! refraction indices that a ray pushes and pops as it enters and leaves
//! nested media, the face-index handling of the mesh loader, and the
//! kd-tree structure — what it holds, how it splits, what a range query
//! returns — stated over exact integer coordinates.

pub mod image;
pub mod kdtree;
pub mod mesh;
pub mod renderer;
