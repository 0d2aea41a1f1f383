//! The incidence structure behind per-vertex normal averaging.
//!
//! A vertex normal is the normalised mean of the unit face normals of the
//! triangles around the vertex. Which face normals are summed for a
//! vertex, how often and in which order, depends on the corner list
//! alone and is computed here. Evaluating the sum is left to the caller,
//! who owns the coordinates.

use vstd::prelude::*;
use crate::tiles::{indices_in_range, triangle_count};

verus! {

/// The triangles that contribute to vertex `v` among the first `n`
/// corners, one entry per corner that names `v`, in corner order. A
/// triangle that names `v` at two corners is listed twice.
pub open spec fn incident(indices: Seq<usize>, v: int, n: nat) -> Seq<usize>
    decreases n,
{
    if n == 0 {
        Seq::empty()
    } else {
        let prev = incident(indices, v, (n - 1) as nat);
        if indices[n - 1] == v {
            prev.push(((n - 1) / 3) as usize)
        } else {
            prev
        }
    }
}

/// Lists, for every vertex, the triangles whose face normal is added to
/// the vertex's sum, in the order in which they are added. The length of
/// a list is the vertex's contribution count; a vertex with an empty list
/// belongs to no triangle and keeps a zero normal.
pub fn corner_incidence(vertex_count: usize, indices: &[usize]) -> (out: Vec<Vec<usize>>)
    requires
        indices_in_range(indices@, vertex_count as nat),
    ensures
        out@.len() == vertex_count,
        forall|v: int|
            0 <= v < vertex_count ==> (#[trigger] out@[v])@ == incident(
                indices@,
                v,
                3 * triangle_count(indices@),
            ),
{
    let mut out: Vec<Vec<usize>> = Vec::new();
    let mut v: usize = 0;
    while v < vertex_count
        invariant
            v <= vertex_count,
            out@.len() == v,
            forall|w: int| 0 <= w < v ==> (#[trigger] out@[w])@ == Seq::<usize>::empty(),
        decreases vertex_count - v,
    {
        out.push(Vec::new());
        v += 1;
    }
    let corners: usize = indices.len() / 3 * 3;
    let mut p: usize = 0;
    while p < corners
        invariant
            p <= corners,
            corners == 3 * triangle_count(indices@),
            corners <= indices@.len(),
            indices_in_range(indices@, vertex_count as nat),
            out@.len() == vertex_count,
            forall|w: int| 0 <= w < vertex_count ==> (#[trigger] out@[w])@ == incident(indices@, w, p as nat),
        decreases corners - p,
    {
        let at: usize = indices[p];
        out[at].push(p / 3);
        p += 1;
    }
    out
}

/// The contribution count of a vertex is the number of corners that name
/// it.
pub proof fn lemma_incident_len(indices: Seq<usize>, v: int, n: nat)
    requires
        n <= indices.len(),
    ensures
        incident(indices, v, n).len() == indices.take(n as int).filter(|i: usize| i == v).len(),
    decreases n,
{
    let keep = |i: usize| i == v;
    if n == 0 {
        assert(indices.take(0) =~= Seq::<usize>::empty());
        assert(Seq::<usize>::empty().filter(keep) =~= Seq::<usize>::empty()) by {
            reveal(Seq::filter);
        }
    } else {
        lemma_incident_len(indices, v, (n - 1) as nat);
        assert(indices.take(n as int).drop_last() =~= indices.take(n - 1));
        reveal(Seq::filter);
    }
}

} // verus!
