//! The integer side of building a triangle mesh from OBJ data: which
//! position indices form the index buffer, whether the file's normals are
//! used, and which triangles take part in generating normals.
use vstd::prelude::*;

use crate::parser::{Face, FaceModel, ObjData};

verus! {

/// The non-negative entries of `v`, as `u32`, in order.
pub open spec fn nonneg_indices(v: Seq<i32>) -> Seq<u32>
    decreases v.len(),
{
    if v.len() == 0 {
        Seq::empty()
    } else {
        let prev = nonneg_indices(v.drop_last());
        if v.last() >= 0 {
            prev.push(v.last() as u32)
        } else {
            prev
        }
    }
}

/// What one face gives to the index buffer: of its first three corners,
/// those with a non-negative position index; nothing when it has fewer than
/// three corners.
pub open spec fn face_triangle(v_idx: Seq<i32>) -> Seq<u32> {
    if v_idx.len() >= 3 {
        nonneg_indices(v_idx.take(3))
    } else {
        Seq::empty()
    }
}

/// The index buffer of a list of faces.
pub open spec fn triangle_indices(faces: Seq<FaceModel>) -> Seq<u32>
    decreases faces.len(),
{
    if faces.len() == 0 {
        Seq::empty()
    } else {
        triangle_indices(faces.drop_last()) + face_triangle(faces.last().v_idx)
    }
}

/// What `face_triangle` gives for a concrete face.
fn push_face_triangle(out: &mut Vec<u32>, face: &Face)
    ensures
        final(out)@ == old(out)@ + face_triangle(face.v_idx@),
{
    if face.v_idx.len() >= 3 {
        let ghost v = face.v_idx@.take(3);
        let mut j: usize = 0;
        while j < 3
            invariant
                j <= 3 <= face.v_idx.len(),
                v == face.v_idx@.take(3),
                out@ == old(out)@ + nonneg_indices(v.take(j as int)),
            decreases 3 - j,
        {
            let idx = face.v_idx[j];
            proof {
                assert(v.take(j + 1).drop_last() =~= v.take(j as int));
            }
            if idx >= 0 {
                out.push(idx as u32);
            }
            j += 1;
            assert(out@ =~= old(out)@ + nonneg_indices(v.take(j as int)));
        }
        assert(v.take(3) =~= v);
    } else {
        assert(out@ =~= old(out)@ + face_triangle(face.v_idx@));
    }
}

impl ObjData {
    /// The mesh's index buffer: for each face with at least three corners, the
    /// non-negative position indices among its first three; empty when there
    /// are no positions.
    pub fn index_buffer(&self) -> (r: Vec<u32>)
        ensures
            r@ == if self.positions.len() == 0 {
                Seq::empty()
            } else {
                triangle_indices(self@.faces)
            },
    {
        let mut out: Vec<u32> = Vec::new();
        if self.positions.len() == 0 {
            return out;
        }
        let ghost faces = self@.faces;
        let mut i: usize = 0;
        while i < self.faces.len()
            invariant
                i <= self.faces.len(),
                faces == self@.faces,
                faces.len() == self.faces.len(),
                out@ == triangle_indices(faces.take(i as int)),
            decreases self.faces.len() - i,
        {
            proof {
                assert(faces.take(i + 1).drop_last() =~= faces.take(i as int));
                assert(faces.take(i + 1).last() == self.faces@[i as int]@);
            }
            push_face_triangle(&mut out, &self.faces[i]);
            i += 1;
        }
        assert(faces.take(self.faces.len() as int) =~= faces);
        out
    }

    /// Whether the mesh takes its normals from the file: the file's faces
    /// name normals and there is one normal per position.
    pub fn uses_file_normals(&self) -> (r: bool)
        ensures
            r == (self.has_normals && self.normals.len() == self.positions.len()),
    {
        self.has_normals && self.normals.len() == self.positions.len()
    }
}

/// The triangles among the first `t` complete triples of `idx` whose three
/// indices are all below `n`.
pub open spec fn normal_triangles_upto(idx: Seq<u32>, n: nat, t: nat) -> Seq<(usize, usize, usize)>
    decreases t,
{
    if t == 0 {
        Seq::empty()
    } else {
        let prev = normal_triangles_upto(idx, n, (t - 1) as nat);
        let a = idx[3 * t - 3];
        let b = idx[3 * t - 2];
        let c = idx[3 * t - 1];
        if a < n && b < n && c < n {
            prev.push((a as usize, b as usize, c as usize))
        } else {
            prev
        }
    }
}

/// The triangles that contribute to generated normals: each complete triple
/// of the index buffer whose indices all name one of `n` vertices; a trailing
/// incomplete triple is left out.
pub open spec fn spec_normal_triangles(idx: Seq<u32>, n: nat) -> Seq<(usize, usize, usize)> {
    normal_triangles_upto(idx, n, idx.len() / 3)
}

/// The triangles of `indices` that take part in generating normals for a
/// mesh of `n_vertices` vertices.
pub fn normal_triangles(indices: &Vec<u32>, n_vertices: usize) -> (r: Vec<(usize, usize, usize)>)
    ensures
        r@ == spec_normal_triangles(indices@, n_vertices as nat),
{
    let mut out: Vec<(usize, usize, usize)> = Vec::new();
    let count = indices.len() / 3;
    let mut t: usize = 0;
    while t < count
        invariant
            t <= count == indices.len() / 3,
            out@ == normal_triangles_upto(indices@, n_vertices as nat, t as nat),
        decreases count - t,
    {
        let a = indices[3 * t];
        let b = indices[3 * t + 1];
        let c = indices[3 * t + 2];
        if (a as usize) < n_vertices && (b as usize) < n_vertices && (c as usize) < n_vertices {
            out.push((a as usize, b as usize, c as usize));
        }
        t += 1;
    }
    out
}

proof fn lemma_nonneg_indices_len(v: Seq<i32>)
    ensures
        nonneg_indices(v).len() <= v.len(),
        (forall|j: int| 0 <= j < v.len() ==> v[j] >= 0) ==> nonneg_indices(v).len() == v.len(),
    decreases v.len(),
{
    if v.len() > 0 {
        lemma_nonneg_indices_len(v.drop_last());
    }
}

/// A face with three or more corners whose first three position indices are
/// non-negative.
pub open spec fn full_triangle(f: FaceModel) -> bool {
    f.v_idx.len() >= 3 && f.v_idx[0] >= 0 && f.v_idx[1] >= 0 && f.v_idx[2] >= 0
}

pub open spec fn full_triangles(faces: Seq<FaceModel>) -> bool {
    forall|i: int| 0 <= i < faces.len() ==> #[trigger] full_triangle(faces[i])
}

/// The index buffer holds at most three indices per face, and exactly three
/// per face when every face has three or more corners whose first three
/// position indices are non-negative.
pub proof fn law_index_buffer_size(faces: Seq<FaceModel>)
    ensures
        triangle_indices(faces).len() <= 3 * faces.len(),
        full_triangles(faces) ==> triangle_indices(faces).len() == 3 * faces.len(),
    decreases faces.len(),
{
    if faces.len() > 0 {
        let prefix = faces.drop_last();
        law_index_buffer_size(prefix);
        let v = faces.last().v_idx;
        if v.len() >= 3 {
            lemma_nonneg_indices_len(v.take(3));
        }
        if full_triangles(faces) {
            assert forall|i: int| 0 <= i < prefix.len() implies #[trigger] full_triangle(prefix[i]) by {
                assert(prefix[i] == faces[i]);
                assert(full_triangle(faces[i]));
            }
            assert(full_triangle(faces[faces.len() - 1]));
            assert forall|j: int| 0 <= j < 3 implies v.take(3)[j] >= 0 by {
                assert(v.take(3)[j] == v[j]);
            }
        }
    }
}

/// All three indices of every triangle are below `n`.
pub open spec fn triangles_in_range(tris: Seq<(usize, usize, usize)>, n: nat) -> bool {
    forall|k: int|
        0 <= k < tris.len() ==> (#[trigger] tris[k]).0 < n && tris[k].1 < n && tris[k].2 < n
}

proof fn lemma_normal_triangles_in_range(idx: Seq<u32>, n: nat, t: nat)
    ensures
        triangles_in_range(normal_triangles_upto(idx, n, t), n),
    decreases t,
{
    if t > 0 {
        let prev = normal_triangles_upto(idx, n, (t - 1) as nat);
        lemma_normal_triangles_in_range(idx, n, (t - 1) as nat);
        let cur = normal_triangles_upto(idx, n, t);
        assert forall|k: int| 0 <= k < cur.len() implies (#[trigger] cur[k]).0 < n && cur[k].1 < n
            && cur[k].2 < n by {
            if k < prev.len() {
                assert(cur[k] == prev[k]);
            }
        }
    }
}

/// Every triangle used to generate normals names three existing vertices.
pub proof fn law_normal_triangles_in_range(idx: Seq<u32>, n: nat)
    ensures
        triangles_in_range(spec_normal_triangles(idx, n), n),
{
    lemma_normal_triangles_in_range(idx, n, idx.len() / 3);
}

/// A face whose first three position indices are non-negative gives the
/// triangle of those three indices, in corner order.
pub proof fn law_face_triangle_in_corner_order(v: Seq<i32>)
    requires
        v.len() >= 3,
        v[0] >= 0,
        v[1] >= 0,
        v[2] >= 0,
    ensures
        face_triangle(v) == seq![v[0] as u32, v[1] as u32, v[2] as u32],
{
    let t = v.take(3);
    reveal_with_fuel(nonneg_indices, 4);
    assert(t.drop_last().drop_last().drop_last() =~= Seq::<i32>::empty());
    assert(nonneg_indices(t) =~= seq![v[0] as u32, v[1] as u32, v[2] as u32]);
}

/// Appending a triangle to the index buffer appends its three indices, in
/// order, after those of the faces before.
pub proof fn law_index_buffer_appends_faces(faces: Seq<FaceModel>, f: FaceModel)
    ensures
        triangle_indices(faces.push(f)) == triangle_indices(faces) + face_triangle(f.v_idx),
{
    assert(faces.push(f).drop_last() =~= faces);
}

/// A complete triple whose indices all name vertices is one triangle for
/// normal generation, with its corners in order; one that names a missing
/// vertex is none.
pub proof fn law_normal_triangle_of_a_triple(idx: Seq<u32>, n: nat)
    requires
        idx.len() == 3,
    ensures
        spec_normal_triangles(idx, n) == if idx[0] < n && idx[1] < n && idx[2] < n {
            seq![(idx[0] as usize, idx[1] as usize, idx[2] as usize)]
        } else {
            Seq::<(usize, usize, usize)>::empty()
        },
{
    reveal_with_fuel(normal_triangles_upto, 2);
    assert(idx.len() / 3 == 1);
}

} // verus!
