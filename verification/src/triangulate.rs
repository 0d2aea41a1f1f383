//! Fan triangulation of polygonal faces.
//!
//! A face of `n >= 3` corners becomes `n - 2` triangles that all share the
//! face's first corner. This is only correct for convex polygons, which is
//! what terrain exports contain; concave faces are split the same way and
//! may produce overlapping triangles.

use vstd::prelude::*;

verus! {

/// The corners of the fan of one face, three per triangle. Triangle `t`
/// is `(face[0], face[t + 1], face[t + 2])`. A face with fewer than three
/// corners has no triangles.
pub open spec fn fan(face: Seq<usize>) -> Seq<usize> {
    if face.len() < 3 {
        Seq::empty()
    } else {
        Seq::new(
            (3 * (face.len() - 2)) as nat,
            |k: int| if k % 3 == 0 { face[0] } else { face[k / 3 + k % 3] },
        )
    }
}

/// The fans of all faces, one after the other in face order.
pub open spec fn fan_all(faces: Seq<Seq<usize>>) -> Seq<usize>
    decreases faces.len(),
{
    if faces.len() == 0 {
        Seq::empty()
    } else {
        fan_all(faces.drop_last()) + fan(faces.last())
    }
}

/// The faces of a face list as sequences.
pub open spec fn face_seqs(faces: Seq<Vec<usize>>) -> Seq<Seq<usize>> {
    faces.map_values(|f: Vec<usize>| f@)
}

/// Number of triangles in the fan of a face with `n` corners.
pub open spec fn fan_triangles(n: nat) -> nat {
    if n < 3 { 0 } else { (n - 2) as nat }
}

/// A face of `n` corners yields exactly `n - 2` triangles (none below three
/// corners), and the first corner of every one of them is the face's first
/// corner, followed by two consecutive corners of the face.
pub proof fn lemma_fan_shape(face: Seq<usize>)
    ensures
        fan(face).len() == 3 * fan_triangles(face.len()),
        forall|t: int| 0 <= t < fan_triangles(face.len()) ==> {
            &&& #[trigger] fan(face)[3 * t] == face[0]
            &&& fan(face)[3 * t + 1] == face[t + 1]
            &&& fan(face)[3 * t + 2] == face[t + 2]
        },
{
    assert forall|t: int| 0 <= t < fan_triangles(face.len()) implies {
        &&& #[trigger] fan(face)[3 * t] == face[0]
        &&& fan(face)[3 * t + 1] == face[t + 1]
        &&& fan(face)[3 * t + 2] == face[t + 2]
    } by {
        assert((3 * t) % 3 == 0 && (3 * t) / 3 == t) by (nonlinear_arith);
        assert((3 * t + 1) % 3 == 1 && (3 * t + 1) / 3 == t) by (nonlinear_arith);
        assert((3 * t + 2) % 3 == 2 && (3 * t + 2) / 3 == t) by (nonlinear_arith);
    }
}

/// Triangulating a single face yields its fan and nothing else.
pub proof fn lemma_single_face(face: Seq<usize>)
    ensures
        fan_all(seq![face]) == fan(face),
{
    let faces = seq![face];
    assert(faces.drop_last() =~= Seq::<Seq<usize>>::empty());
    assert(fan_all(faces.drop_last()) =~= Seq::<usize>::empty());
    assert(faces.last() == face);
    assert(fan_all(faces) =~= fan(face));
}

/// Appends the fan of `face` to `out`.
pub fn triangulate_face(face: &[usize], out: &mut Vec<usize>)
    ensures
        final(out)@ == old(out)@ + fan(face@),
{
    let n: usize = face.len();
    if n < 3 {
        assert(out@ =~= old(out)@ + fan(face@));
        return ;
    }
    let ghost before = out@;
    let mut i: usize = 2;
    while i < n
        invariant
            2 <= i <= n,
            n == face@.len(),
            out@.len() == before.len() + 3 * (i - 2),
            forall|k: int| 0 <= k < before.len() ==> out@[k] == before[k],
            forall|k: int| 0 <= k < 3 * (i - 2) ==> #[trigger] out@[before.len() + k] == fan(face@)[k],
        decreases n - i,
    {
        let ghost prev = out@;
        out.push(face[0]);
        out.push(face[i - 1]);
        out.push(face[i]);
        proof {
            lemma_fan_shape(face@);
            let t: int = i - 2;
            assert(fan(face@)[3 * t] == face@[0]);
            assert forall|k: int| 0 <= k < 3 * (i + 1 - 2) implies #[trigger] out@[before.len() + k]
                == fan(face@)[k] by {
                if k < 3 * t {
                    assert(out@[before.len() + k] == prev[before.len() + k]);
                }
            }
        }
        i += 1;
    }
    proof {
        let want = before + fan(face@);
        assert forall|j: int| 0 <= j < want.len() implies out@[j] == want[j] by {
            if j >= before.len() {
                let k: int = j - before.len();
                assert(out@[before.len() + k] == fan(face@)[k]);
            }
        }
        assert(out@ =~= want);
    }
}

/// Fan-splits every face and returns the corners of all triangles as one
/// flat sequence, three per triangle, in face order. Faces with fewer than
/// three corners contribute nothing.
pub fn triangulate(faces: &[Vec<usize>]) -> (out: Vec<usize>)
    ensures
        out@ == fan_all(face_seqs(faces@)),
{
    let mut out: Vec<usize> = Vec::new();
    let mut f: usize = 0;
    while f < faces.len()
        invariant
            f <= faces@.len(),
            out@ == fan_all(face_seqs(faces@).take(f as int)),
        decreases faces@.len() - f,
    {
        triangulate_face(&faces[f], &mut out);
        proof {
            let all = face_seqs(faces@);
            assert(all.take(f + 1).drop_last() =~= all.take(f as int));
            assert(all.take(f + 1).last() == faces@[f as int]@);
        }
        f += 1;
    }
    assert(face_seqs(faces@).take(f as int) =~= face_seqs(faces@));
    out
}

/// Every corner of every face lies in `lo..hi`.
pub open spec fn corners_within(faces: Seq<Seq<usize>>, lo: int, hi: int) -> bool {
    forall|f: int, k: int|
        0 <= f < faces.len() && 0 <= k < faces[f].len() ==> lo <= #[trigger] faces[f][k] < hi
}

/// Triangulation invents no corner: if every corner of every face lies in
/// a range, so does every corner of every triangle.
pub proof fn lemma_fan_all_within(faces: Seq<Seq<usize>>, lo: int, hi: int)
    requires
        corners_within(faces, lo, hi),
    ensures
        forall|k: int| 0 <= k < fan_all(faces).len() ==> lo <= #[trigger] fan_all(faces)[k] < hi,
    decreases faces.len(),
{
    if faces.len() > 0 {
        let front = faces.drop_last();
        let face = faces.last();
        assert forall|f: int, k: int| 0 <= f < front.len() && 0 <= k < front[f].len() implies lo
            <= #[trigger] front[f][k] < hi by {
            assert(front[f][k] == faces[f][k]);
        }
        lemma_fan_all_within(front, lo, hi);
        assert forall|k: int| 0 <= k < fan(face).len() implies lo <= #[trigger] fan(face)[k] < hi by {
            let j: int = if k % 3 == 0 { 0 } else { k / 3 + k % 3 };
            assert(0 <= j < face.len());
            assert(fan(face)[k] == faces[faces.len() - 1][j]);
        }
        let head = fan_all(front);
        assert forall|k: int| 0 <= k < fan_all(faces).len() implies lo <= #[trigger] fan_all(faces)[k]
            < hi by {
            if k < head.len() {
                assert(fan_all(faces)[k] == head[k]);
            } else {
                assert(fan_all(faces)[k] == fan(face)[k - head.len()]);
            }
        }
    }
}

} // verus!
