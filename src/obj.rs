//! The face lists of a mesh.
use vstd::prelude::*;

verus! {

/// A polygon of a mesh: zero-based indices into the vertex list and, one
/// for one, into the texture coordinate list.
#[derive(Debug)]
pub struct Face {
    pub vertex_indices: Vec<usize>,
    pub tex_indices: Vec<usize>,
}

impl Face {
    /// Every index lies within lists of `n_vertices` vertices and `n_tex`
    /// texture coordinates, and the two index lists have one length.
    pub open spec fn valid(&self, n_vertices: nat, n_tex: nat) -> bool {
        &&& self.vertex_indices@.len() == self.tex_indices@.len()
        &&& forall|i: int| 0 <= i < self.vertex_indices@.len() ==> #[trigger] self.vertex_indices@[i] < n_vertices
        &&& forall|i: int| 0 <= i < self.tex_indices@.len() ==> #[trigger] self.tex_indices@[i] < n_tex
    }

    /// Whether the face is valid for a model with these list lengths; a face
    /// that is not makes the model malformed.
    pub fn is_valid(&self, n_vertices: usize, n_tex: usize) -> (r: bool)
        ensures
            r == self.valid(n_vertices as nat, n_tex as nat),
    {
        if self.vertex_indices.len() != self.tex_indices.len() {
            return false;
        }
        let mut i: usize = 0;
        while i < self.vertex_indices.len()
            invariant
                i <= self.vertex_indices@.len(),
                self.vertex_indices@.len() == self.tex_indices@.len(),
                forall|j: int| 0 <= j < i ==> #[trigger] self.vertex_indices@[j] < n_vertices,
                forall|j: int| 0 <= j < i ==> #[trigger] self.tex_indices@[j] < n_tex,
            decreases self.vertex_indices@.len() - i,
        {
            if self.vertex_indices[i] >= n_vertices || self.tex_indices[i] >= n_tex {
                return false;
            }
            i = i + 1;
        }
        true
    }
}

} // verus!
