//! Face-index handling of the triangle-mesh loader.
//!
//! An OBJ face names three vertices by index and, optionally, three normals.
//! Reading the file and carrying the floating-point coordinates is the
//! driver's work; which indices a face uses, and whether it carries
//! per-vertex normals at all, is exact and decided here.

use vstd::prelude::*;

verus! {

/// The indices a triangular face uses: the three vertex indices unchanged,
/// and the three normal indices as one triple when the face has normals.
///
/// A face carries normals exactly when its first corner names one; the
/// other two corners must then name one too, and every index must be in
/// range of the point and normal tables (`n_points`, `n_normals`), as the
/// loader rejects files where they are not.
pub fn face_indices(
    v: (usize, usize, usize),
    n: (Option<usize>, Option<usize>, Option<usize>),
    n_points: usize,
    n_normals: usize,
) -> (r: ((usize, usize, usize), Option<(usize, usize, usize)>))
    requires
        v.0 < n_points,
        v.1 < n_points,
        v.2 < n_points,
        n.0 is Some ==> n.1 is Some && n.2 is Some,
        n.0 is Some ==> n.0.unwrap() < n_normals && n.1.unwrap() < n_normals && n.2.unwrap()
            < n_normals,
    ensures
        r.0 == v,
        n.0 is Some ==> r.1 == Some((n.0.unwrap(), n.1.unwrap(), n.2.unwrap())),
        n.0 is None ==> r.1 is None,
{
    if let Some(a) = n.0 {
        let b = n.1.unwrap();
        let c = n.2.unwrap();
        (v, Some((a, b, c)))
    } else {
        (v, None)
    }
}

} // verus!
