//! Mesh faces and the rules a well-formed face obeys.
//!
//! A face is an ordered polygon of 1-based indices into a mesh's vertex
//! list. The validity rules live here so that malformed faces are rejected
//! when a model is loaded and never reach the projection pipeline.

use vstd::prelude::*;

verus! {

/// The ways a geometry operation can fail.
///
/// `DegenerateFace` is reported at model load time for a face with fewer
/// than three distinct vertex indices or an index that names no vertex.
/// `DivideByZero` (normalising a zero-length vector) and `InvalidViewport`
/// (a viewport with a non-positive side) are reported by the floating-point
/// vector algebra of the application layer, which shares this taxonomy.
#[derive(Debug, Clone, Copy, PartialEq, Eq)]
pub enum GeometryError {
    DivideByZero,
    DegenerateFace,
    InvalidViewport,
}

/// A polygon of a mesh: an ordered list of 1-based indices into the mesh's
/// vertex list.
#[derive(Debug, Clone, PartialEq)]
pub struct Face {
    pub vert_indices: Vec<usize>,
}

impl View for Face {
    type V = Seq<usize>;

    open spec fn view(&self) -> Seq<usize> {
        self.vert_indices@
    }
}

/// Every index of `s` names a vertex of a mesh with `vert_count` vertices:
/// indices are 1-based, so each must lie in `1 ..= vert_count`.
pub open spec fn indices_in_bounds(s: Seq<usize>, vert_count: usize) -> bool {
    forall|i: int| 0 <= i < s.len() ==> 1 <= #[trigger] s[i] <= vert_count
}

/// `s` holds at least three pairwise distinct values, the least a polygon
/// needs to span an area.
pub open spec fn has_three_distinct(s: Seq<usize>) -> bool {
    exists|i: int, j: int, k: int|
        0 <= i < s.len() && 0 <= j < s.len() && 0 <= k < s.len() && s[i] != s[j] && s[i] != s[k]
            && s[j] != s[k]
}

/// A face is well formed for a mesh of `vert_count` vertices: at least
/// three distinct indices, each naming a vertex.
pub open spec fn face_valid(s: Seq<usize>, vert_count: usize) -> bool {
    has_three_distinct(s) && indices_in_bounds(s, vert_count)
}

/// The index lists of a list of faces.
pub open spec fn face_views(fs: Seq<Face>) -> Seq<Seq<usize>> {
    fs.map_values(|f: Face| f@)
}

/// True when `s` holds at least three pairwise distinct values.
fn three_distinct(s: &Vec<usize>) -> (r: bool)
    ensures
        r == has_three_distinct(s@),
{
    let n: usize = s.len();
    if n == 0 {
        return false;
    }
    let a: usize = s[0];
    let mut j: usize = 1;
    while j < n && s[j] == a
        invariant
            n == s@.len(),
            n > 0,
            a == s@[0],
            1 <= j <= n,
            forall|m: int| 0 <= m < j ==> s@[m] == a,
        decreases n - j,
    {
        j += 1;
    }
    if j == n {
        assert(!has_three_distinct(s@)) by {
            if has_three_distinct(s@) {
                let (x, y, z) = choose|x: int, y: int, z: int|
                    0 <= x < s@.len() && 0 <= y < s@.len() && 0 <= z < s@.len() && s@[x] != s@[y]
                        && s@[x] != s@[z] && s@[y] != s@[z];
                assert(s@[x] == a && s@[y] == a);
            }
        }
        return false;
    }
    let b: usize = s[j];
    let mut k: usize = j + 1;
    while k < n && (s[k] == a || s[k] == b)
        invariant
            n == s@.len(),
            a == s@[0],
            j < n,
            b == s@[j as int],
            b != a,
            j + 1 <= k <= n,
            forall|m: int| 0 <= m < k ==> s@[m] == a || s@[m] == b,
        decreases n - k,
    {
        k += 1;
    }
    if k == n {
        assert(!has_three_distinct(s@)) by {
            if has_three_distinct(s@) {
                let (x, y, z) = choose|x: int, y: int, z: int|
                    0 <= x < s@.len() && 0 <= y < s@.len() && 0 <= z < s@.len() && s@[x] != s@[y]
                        && s@[x] != s@[z] && s@[y] != s@[z];
                assert(s@[x] == a || s@[x] == b);
                assert(s@[y] == a || s@[y] == b);
                assert(s@[z] == a || s@[z] == b);
            }
        }
        return false;
    }
    assert(has_three_distinct(s@)) by {
        assert(s@[0] != s@[j as int] && s@[0] != s@[k as int] && s@[j as int] != s@[k as int]);
    }
    true
}

/// True when every index of `s` lies in `1 ..= vert_count`.
fn indices_in_bounds_exec(s: &Vec<usize>, vert_count: usize) -> (r: bool)
    ensures
        r == indices_in_bounds(s@, vert_count),
{
    let n: usize = s.len();
    let mut i: usize = 0;
    while i < n
        invariant
            n == s@.len(),
            0 <= i <= n,
            forall|m: int| 0 <= m < i ==> 1 <= #[trigger] s@[m] <= vert_count,
        decreases n - i,
    {
        let v: usize = s[i];
        if v < 1 || v > vert_count {
            return false;
        }
        i += 1;
    }
    true
}

impl Face {
    /// An empty face, to be filled with vertex indices by a loader.
    pub fn new() -> (r: Face)
        ensures
            r@ == Seq::<usize>::empty(),
    {
        let f = Face { vert_indices: Vec::new() };
        proof {
            assert(f@ =~= Seq::<usize>::empty());
        }
        f
    }

    /// Checks this face against a mesh of `vert_count` vertices. A face with
    /// fewer than three distinct indices, or with an index outside
    /// `1 ..= vert_count`, is rejected as `DegenerateFace`; such a face must
    /// never reach the projection pipeline.
    pub fn validate(&self, vert_count: usize) -> (r: Result<(), GeometryError>)
        ensures
            r is Ok <==> face_valid(self@, vert_count),
            r is Err ==> r == Err::<(), GeometryError>(GeometryError::DegenerateFace),
    {
        if three_distinct(&self.vert_indices) && indices_in_bounds_exec(
            &self.vert_indices,
            vert_count,
        ) {
            Ok(())
        } else {
            Err(GeometryError::DegenerateFace)
        }
    }

    /// The wireframe edges of this face, as pairs of 0-based positions into
    /// a projected point list: one edge per vertex, each joining a vertex to
    /// its successor and the last edge closing the polygon back to the first
    /// vertex.
    pub fn edge_index_pairs(&self) -> (r: Vec<(usize, usize)>)
        requires
            forall|i: int| 0 <= i < self@.len() ==> 1 <= #[trigger] self@[i],
        ensures
            r@.len() == self@.len(),
            forall|i: int|
                0 <= i < r@.len() ==> #[trigger] r@[i] == (
                    (self@[i] - 1) as usize,
                    (self@[if i + 1 < self@.len() {
                        i + 1
                    } else {
                        0
                    }] - 1) as usize,
                ),
    {
        let n: usize = self.vert_indices.len();
        let mut r: Vec<(usize, usize)> = Vec::new();
        let mut i: usize = 0;
        while i < n
            invariant
                n == self@.len(),
                forall|m: int| 0 <= m < n ==> 1 <= #[trigger] self@[m],
                0 <= i <= n,
                r@.len() == i,
                forall|m: int|
                    0 <= m < i ==> #[trigger] r@[m] == (
                        (self@[m] - 1) as usize,
                        (self@[if m + 1 < n as int {
                            m + 1
                        } else {
                            0
                        }] - 1) as usize,
                    ),
            decreases n - i,
        {
            let a: usize = self.vert_indices[i] - 1;
            let next: usize = if i + 1 < n {
                i + 1
            } else {
                0
            };
            let b: usize = self.vert_indices[next] - 1;
            r.push((a, b));
            i += 1;
        }
        r
    }
}

} // verus!
