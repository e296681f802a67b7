use crate::render::types::mesh::Mesh;
use vstd::prelude::*;

verus! {

/// Several meshes merged into one vertex and one index list.
pub struct Meshes<V> {
    pub vertices: Vec<V>,
    pub indices: Vec<u32>,
}

impl<V: Copy> Meshes<V> {
    pub fn new() -> (r: Self)
        ensures
            r.vertices@ == Seq::<V>::empty(),
            r.indices@ == Seq::<u32>::empty(),
    {
        Self { vertices: Vec::new(), indices: Vec::new() }
    }

    /// Appends `mesh`, its indices moved past the vertices already there (the
    /// vertex count taken as a `u32`).
    pub fn extend_with_offset(&mut self, mesh: &Mesh<V>)
        requires
            forall|i: int|
                0 <= i < mesh.indices.len() ==> #[trigger] mesh.indices[i] + (#[verifier::truncate] (old(
                    self,
                ).vertices.len() as u32)) <= u32::MAX,
        ensures
            final(self).vertices@ == old(self).vertices@ + mesh.vertices@,
            final(self).indices@ == old(self).indices@ + mesh.indices@.map_values(
                |i: u32| (i + (#[verifier::truncate] (old(self).vertices.len() as u32))) as u32,
            ),
    {
        let index_offset = #[verifier::truncate] (self.vertices.len() as u32);
        let ghost old_vertices = self.vertices@;
        let ghost old_indices = self.indices@;
        for k in 0..mesh.vertices.len()
            invariant
                self.vertices@ == old_vertices + mesh.vertices@.take(k as int),
                self.indices@ == old_indices,
        {
            self.vertices.push(mesh.vertices[k]);
            proof {
                assert(mesh.vertices@.take(k + 1) =~= mesh.vertices@.take(k as int).push(
                    mesh.vertices@[k as int],
                ));
            }
        }
        proof {
            assert(mesh.vertices@.take(mesh.vertices.len() as int) =~= mesh.vertices@);
            assert(mesh.indices@.take(0).map_values(|i: u32| (i + index_offset) as u32) =~= Seq::<
                u32,
            >::empty());
        }
        for k in 0..mesh.indices.len()
            invariant
                self.vertices@ == old_vertices + mesh.vertices@,
                index_offset == #[verifier::truncate] (old_vertices.len() as u32),
                forall|i: int|
                    0 <= i < mesh.indices.len() ==> #[trigger] mesh.indices[i] + index_offset
                        <= u32::MAX,
                self.indices@ == old_indices + mesh.indices@.take(k as int).map_values(
                    |i: u32| (i + index_offset) as u32,
                ),
        {
            self.indices.push(mesh.indices[k] + index_offset);
            proof {
                assert(mesh.indices@.take(k + 1).map_values(|i: u32| (i + index_offset) as u32)
                    =~= mesh.indices@.take(k as int).map_values(
                    |i: u32| (i + index_offset) as u32,
                ).push((mesh.indices@[k as int] + index_offset) as u32));
            }
        }
        proof {
            assert(mesh.indices@.take(mesh.indices.len() as int) =~= mesh.indices@);
        }
    }
}

} // verus!
