//! The bookkeeping of slope colouring.
//!
//! A triangle is coloured as a whole, from the normal stored at its first
//! corner, and the colour is written to all three of its vertices. Where
//! triangles share a vertex the last one in the list wins. Which normal
//! ends up deciding each vertex's colour depends on the corner list alone
//! and is computed here; the colour arithmetic is left to the caller.

use vstd::prelude::*;
use crate::tiles::{indices_in_range, triangle_count};

verus! {

/// The vertex whose normal decides the colour of vertex `v` after the
/// first `n` corners have been written: the first corner of the last
/// triangle that names `v`, or `None` if no triangle does.
pub open spec fn deciding_vertex(indices: Seq<usize>, v: int, n: nat) -> Option<usize>
    decreases n,
{
    if n == 0 {
        None
    } else if indices[n - 1] == v {
        Some(indices[3 * ((n - 1) / 3)])
    } else {
        deciding_vertex(indices, v, (n - 1) as nat)
    }
}

/// For every vertex, the vertex whose normal decides its colour, or
/// `None` where the vertex belongs to no triangle and keeps the default
/// colour.
pub fn color_sources(vertex_count: usize, indices: &[usize]) -> (out: Vec<Option<usize>>)
    requires
        indices_in_range(indices@, vertex_count as nat),
    ensures
        out@.len() == vertex_count,
        forall|v: int|
            0 <= v < vertex_count ==> #[trigger] out@[v] == deciding_vertex(
                indices@,
                v,
                3 * triangle_count(indices@),
            ),
{
    let mut out: Vec<Option<usize>> = Vec::new();
    let mut v: usize = 0;
    while v < vertex_count
        invariant
            v <= vertex_count,
            out@.len() == v,
            forall|w: int| 0 <= w < v ==> #[trigger] out@[w] == None::<usize>,
        decreases vertex_count - v,
    {
        out.push(None);
        v += 1;
    }
    let corners: usize = indices.len() / 3 * 3;
    let mut p: usize = 0;
    while p < corners
        invariant
            p <= corners,
            corners == 3 * triangle_count(indices@),
            corners <= indices@.len(),
            indices_in_range(indices@, vertex_count as nat),
            out@.len() == vertex_count,
            forall|w: int| 0 <= w < vertex_count ==> #[trigger] out@[w] == deciding_vertex(indices@, w, p as nat),
        decreases corners - p,
    {
        let at: usize = indices[p];
        let first: usize = indices[p / 3 * 3];
        out[at] = Some(first);
        p += 1;
    }
    out
}

/// Last write wins: a vertex is coloured by the first corner of the last
/// triangle that names it.
pub proof fn lemma_last_triangle_decides(indices: Seq<usize>, v: int, t: int)
    requires
        0 <= t < triangle_count(indices),
        indices[3 * t] == v || indices[3 * t + 1] == v || indices[3 * t + 2] == v,
        forall|p: int| 3 * (t + 1) <= p < 3 * triangle_count(indices) ==> indices[p] != v,
    ensures
        deciding_vertex(indices, v, 3 * triangle_count(indices)) == Some(indices[3 * t]),
{
    lemma_skip_unrelated(indices, v, (3 * (t + 1)) as nat, 3 * triangle_count(indices));
    let n: nat = (3 * (t + 1)) as nat;
    assert((n - 1) / 3 == t && (n - 2) / 3 == t && (n - 3) / 3 == t);
    reveal_with_fuel(deciding_vertex, 4);
}

proof fn lemma_skip_unrelated(indices: Seq<usize>, v: int, m: nat, n: nat)
    requires
        m <= n,
        forall|p: int| m <= p < n ==> indices[p] != v,
    ensures
        deciding_vertex(indices, v, n) == deciding_vertex(indices, v, m),
    decreases n,
{
    if m < n {
        lemma_skip_unrelated(indices, v, m, (n - 1) as nat);
    }
}

/// In a mesh whose corner list counts up from zero, as in a tile, no two
/// triangles meet in a vertex, so every vertex is coloured by the first
/// corner of its own triangle whatever the order of the triangles.
pub proof fn lemma_unshared_vertices_decide_alone(indices: Seq<usize>, v: int)
    requires
        forall|k: int| 0 <= k < indices.len() ==> indices[k] == k,
        0 <= v < 3 * triangle_count(indices),
    ensures
        deciding_vertex(indices, v, 3 * triangle_count(indices)) == Some((3 * (v / 3)) as usize),
{
    let t: int = v / 3;
    assert(indices[3 * t] == 3 * t);
    assert(indices[v] == v);
    lemma_last_triangle_decides(indices, v, t);
}

} // verus!
