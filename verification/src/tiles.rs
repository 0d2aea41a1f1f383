//! Splitting a triangle list into independent grid tiles.
//!
//! Every vertex lies in one cell of a square grid. A triangle is copied
//! whole into every cell of the bounding rectangle of its three corner
//! cells. Each copy brings three fresh vertices, so no tile shares storage
//! with another and no vertex is shared between two triangles of a tile.
//! A triangle whose edge crosses a cell in which none of its corners lies
//! is still copied there when the cell is inside the rectangle, and never
//! otherwise.
//!
//! The vertex payload `V` (positions, normals) is carried through
//! untouched; the caller supplies the grid cell of every vertex.

use std::collections::HashMap;
use vstd::prelude::*;
use vstd::std_specs::hash::*;

verus! {

/// One grid cell's self-contained mesh. `indices` always counts up from
/// zero: local vertex `k` is corner `k % 3` of local triangle `k / 3`.
pub struct Tile<V> {
    pub tile_x: i32,
    pub tile_z: i32,
    pub vertices: Vec<V>,
    pub indices: Vec<usize>,
    pub normals: Vec<V>,
}

/// The least of three numbers.
pub open spec fn min3(a: int, b: int, c: int) -> int {
    if a <= b {
        if a <= c { a } else { c }
    } else {
        if b <= c { b } else { c }
    }
}

/// The greatest of three numbers.
pub open spec fn max3(a: int, b: int, c: int) -> int {
    if a >= b {
        if a >= c { a } else { c }
    } else {
        if b >= c { b } else { c }
    }
}

/// Number of complete triangles in a flat corner list; a trailing
/// incomplete group is ignored.
pub open spec fn triangle_count(indices: Seq<usize>) -> nat {
    (indices.len() / 3) as nat
}

/// Every corner of every complete triangle refers to one of
/// `vertex_count` vertices.
pub open spec fn indices_in_range(indices: Seq<usize>, vertex_count: nat) -> bool {
    forall|k: int| 0 <= k < 3 * triangle_count(indices) ==> indices[k] < vertex_count
}

/// The three corners of triangle `t`.
pub open spec fn corners(indices: Seq<usize>, t: int) -> Seq<usize> {
    seq![indices[3 * t], indices[3 * t + 1], indices[3 * t + 2]]
}

/// The bounding rectangle of the corner cells of triangle `t`, as
/// `(min_x, max_x, min_z, max_z)`.
pub open spec fn rectangle(cells: Seq<(i32, i32)>, indices: Seq<usize>, t: int) -> (int, int, int, int) {
    let a = cells[indices[3 * t] as int];
    let b = cells[indices[3 * t + 1] as int];
    let c = cells[indices[3 * t + 2] as int];
    (
        min3(a.0 as int, b.0 as int, c.0 as int),
        max3(a.0 as int, b.0 as int, c.0 as int),
        min3(a.1 as int, b.1 as int, c.1 as int),
        max3(a.1 as int, b.1 as int, c.1 as int),
    )
}

/// Whether cell `(x, z)` lies in the bounding rectangle of the corner
/// cells of triangle `t`.
pub open spec fn covers(cells: Seq<(i32, i32)>, indices: Seq<usize>, t: int, x: int, z: int) -> bool {
    let r = rectangle(cells, indices, t);
    r.0 <= x <= r.1 && r.2 <= z <= r.3
}

/// The source vertices that the first `n` triangles copy into cell
/// `(x, z)`, in triangle order, three per copied triangle.
pub open spec fn cell_sources(
    cells: Seq<(i32, i32)>,
    indices: Seq<usize>,
    x: int,
    z: int,
    n: nat,
) -> Seq<usize>
    decreases n,
{
    if n == 0 {
        Seq::empty()
    } else {
        let prev = cell_sources(cells, indices, x, z, (n - 1) as nat);
        if covers(cells, indices, n - 1, x, z) {
            prev + corners(indices, n - 1)
        } else {
            prev
        }
    }
}

/// The payload of the listed source vertices.
pub open spec fn gather<V>(data: Seq<V>, sources: Seq<usize>) -> Seq<V> {
    Seq::new(sources.len(), |k: int| data[sources[k] as int])
}

/// `0, 1, .., n - 1`.
pub open spec fn count_up(n: nat) -> Seq<usize> {
    Seq::new(n, |k: int| k as usize)
}

/// The tile holds fresh copies of exactly the listed source vertices.
pub open spec fn tile_holds<V>(
    tile: Tile<V>,
    vertices: Seq<V>,
    normals: Seq<V>,
    sources: Seq<usize>,
) -> bool {
    &&& tile.vertices@ == gather(vertices, sources)
    &&& tile.normals@ == gather(normals, sources)
    &&& tile.indices@ == count_up(sources.len())
}

/// Some tile has the grid coordinate `(x, z)`.
pub open spec fn has_tile<V>(tiles: Seq<Tile<V>>, x: int, z: int) -> bool {
    exists|i: int| 0 <= i < tiles.len() && (#[trigger] tiles[i]).tile_x == x && tiles[i].tile_z == z
}

/// No two tiles have the same grid coordinate.
pub open spec fn distinct_cells<V>(tiles: Seq<Tile<V>>) -> bool {
    forall|i: int, j: int|
        0 <= i < j < tiles.len() ==> !((#[trigger] tiles[i]).tile_x == (#[trigger] tiles[j]).tile_x
            && tiles[i].tile_z == tiles[j].tile_z)
}

/// `tiles` is the tiling of the first `n` triangles of the mesh: one tile
/// for every cell that the rectangle of one of them covers and for no
/// other cell, each holding the copies of the covering triangles in
/// triangle order. The order of the tiles among themselves is left open.
pub open spec fn is_tiling_of_first<V>(
    tiles: Seq<Tile<V>>,
    vertices: Seq<V>,
    cells: Seq<(i32, i32)>,
    indices: Seq<usize>,
    normals: Seq<V>,
    n: nat,
) -> bool {
    &&& distinct_cells(tiles)
    &&& forall|i: int|
        0 <= i < tiles.len() ==> {
            let src = cell_sources(
                cells,
                indices,
                (#[trigger] tiles[i]).tile_x as int,
                tiles[i].tile_z as int,
                n,
            );
            src.len() > 0 && tile_holds(tiles[i], vertices, normals, src)
        }
    &&& forall|x: int, z: int|
        cell_sources(cells, indices, x, z, n).len() > 0 ==> #[trigger] has_tile(tiles, x, z)
}

/// `tiles` is the tiling of the whole mesh.
pub open spec fn is_tiling<V>(
    tiles: Seq<Tile<V>>,
    vertices: Seq<V>,
    cells: Seq<(i32, i32)>,
    indices: Seq<usize>,
    normals: Seq<V>,
) -> bool {
    is_tiling_of_first(tiles, vertices, cells, indices, normals, triangle_count(indices))
}

/// Sources of cell `(cx, cz)` while triangle `t` is being copied and the
/// scan of its rectangle has reached `(x, z)`: the cells of the rectangle
/// are visited column by column, and those before `(x, z)` already hold
/// the triangle.
spec fn partial_sources(
    cells: Seq<(i32, i32)>,
    indices: Seq<usize>,
    t: nat,
    x: int,
    z: int,
    cx: int,
    cz: int,
) -> Seq<usize> {
    let prev = cell_sources(cells, indices, cx, cz, t);
    if covers(cells, indices, t as int, cx, cz) && (cx < x || (cx == x && cz < z)) {
        prev + corners(indices, t as int)
    } else {
        prev
    }
}

spec fn tiles_hold<V>(
    tiles: Seq<Tile<V>>,
    vertices: Seq<V>,
    cells: Seq<(i32, i32)>,
    indices: Seq<usize>,
    normals: Seq<V>,
    t: nat,
    x: int,
    z: int,
) -> bool {
    &&& distinct_cells(tiles)
    &&& forall|i: int|
        0 <= i < tiles.len() ==> {
            let src = partial_sources(
                cells,
                indices,
                t,
                x,
                z,
                (#[trigger] tiles[i]).tile_x as int,
                tiles[i].tile_z as int,
            );
            src.len() > 0 && tile_holds(tiles[i], vertices, normals, src)
        }
    &&& forall|cx: int, cz: int|
        partial_sources(cells, indices, t, x, z, cx, cz).len() > 0 ==> #[trigger] has_tile(
            tiles,
            cx,
            cz,
        )
}

/// `after` is `before` with one more triangle appended.
spec fn extended<V>(before: Tile<V>, after: Tile<V>, v: Seq<V>, n: Seq<V>) -> bool {
    let base = before.vertices@.len();
    &&& after.tile_x == before.tile_x
    &&& after.tile_z == before.tile_z
    &&& after.vertices@ == before.vertices@ + v
    &&& after.normals@ == before.normals@ + n
    &&& after.indices@ == before.indices@ + seq![base as usize, (base + 1) as usize, (base + 2) as usize]
}

fn min_of(a: i32, b: i32, c: i32) -> (m: i32)
    ensures
        m == min3(a as int, b as int, c as int),
{
    if a <= b {
        if a <= c { a } else { c }
    } else {
        if b <= c { b } else { c }
    }
}

fn max_of(a: i32, b: i32, c: i32) -> (m: i32)
    ensures
        m == max3(a as int, b as int, c as int),
{
    if a >= b {
        if a >= c { a } else { c }
    } else {
        if b >= c { b } else { c }
    }
}

/// A cell's key in the lookup table: both coordinates shifted to be
/// non-negative, side by side in one number.
spec fn cell_key(x: int, z: int) -> int {
    (x + 2147483648) * 4294967296 + (z + 2147483648)
}

fn key_of(x: i32, z: i32) -> (key: u64)
    ensures
        key == cell_key(x as int, z as int),
{
    let high: u64 = (x as i64 + 2147483648) as u64;
    let low: u64 = (z as i64 + 2147483648) as u64;
    high * 4294967296 + low
}

/// The lookup table knows every tile by its cell and nothing else.
spec fn index_matches<V>(index: Map<u64, usize>, tiles: Seq<Tile<V>>) -> bool {
    &&& forall|i: int|
        0 <= i < tiles.len() ==> {
            let key = cell_key((#[trigger] tiles[i]).tile_x as int, tiles[i].tile_z as int) as u64;
            index.contains_key(key) && index[key] == i
        }
    &&& forall|key: u64| #[trigger]
        index.contains_key(key) ==> {
            &&& index[key] < tiles.len()
            &&& cell_key(tiles[index[key] as int].tile_x as int, tiles[index[key] as int].tile_z as int)
                == key
        }
}

/// What `place` does to the tile list.
spec fn placed<V>(before: Seq<Tile<V>>, after: Seq<Tile<V>>, x: int, z: int, v: Seq<V>, n: Seq<V>) -> bool {
    &&& after.len() == before.len() + (if has_tile(before, x, z) { 0int } else { 1int })
    &&& forall|i: int|
        0 <= i < before.len() ==> if (#[trigger] before[i]).tile_x == x && before[i].tile_z == z {
            extended(before[i], after[i], v, n)
        } else {
            after[i] == before[i]
        }
    &&& !has_tile(before, x, z) ==> {
        let made = after[before.len() as int];
        &&& made.tile_x == x
        &&& made.tile_z == z
        &&& made.vertices@ == v
        &&& made.normals@ == n
        &&& made.indices@ == seq![0usize, 1usize, 2usize]
    }
}

/// Appends one triangle to the tile at `(x, z)`, creating the tile at the
/// end of the list if it does not exist yet.
fn place<V: Copy>(
    tiles: &mut Vec<Tile<V>>,
    index: &mut HashMap<u64, usize>,
    x: i32,
    z: i32,
    v: [V; 3],
    n: [V; 3],
)
    requires
        index_matches(old(index)@, old(tiles)@),
        forall|i: int|
            0 <= i < old(tiles)@.len() ==> (#[trigger] old(tiles)@[i]).indices@.len() == old(
                tiles,
            )@[i].vertices@.len(),
    ensures
        placed(old(tiles)@, final(tiles)@, x as int, z as int, v@, n@),
        index_matches(final(index)@, final(tiles)@),
{
    broadcast use group_hash_axioms;

    let key: u64 = key_of(x, z);
    let found: Option<usize> = match index.get(&key) {
        Some(at) => Some(*at),
        None => None,
    };
    if let Some(at) = found {
        assert(tiles@[at as int].tile_x == x && tiles@[at as int].tile_z == z);
        assert forall|i: int| 0 <= i < tiles@.len() && i != at implies !((#[trigger] tiles@[i]).tile_x == x
            && tiles@[i].tile_z == z) by {}
        tiles[at].vertices.push(v[0]);
        tiles[at].vertices.push(v[1]);
        tiles[at].vertices.push(v[2]);
        let len: usize = tiles[at].vertices.len();
        tiles[at].indices.push(len - 3);
        tiles[at].indices.push(len - 2);
        tiles[at].indices.push(len - 1);
        tiles[at].normals.push(n[0]);
        tiles[at].normals.push(n[1]);
        tiles[at].normals.push(n[2]);
        proof {
            let before = old(tiles)@[at as int];
            let after = tiles@[at as int];
            assert(after.vertices@ =~= before.vertices@ + v@);
            assert(after.normals@ =~= before.normals@ + n@);
            let base = before.vertices@.len();
            assert(after.indices@ =~= before.indices@ + seq![
                base as usize,
                (base + 1) as usize,
                (base + 2) as usize,
            ]);
        }
    } else {
        let mut vertices: Vec<V> = Vec::new();
        vertices.push(v[0]);
        vertices.push(v[1]);
        vertices.push(v[2]);
        let mut indices: Vec<usize> = Vec::new();
        indices.push(0);
        indices.push(1);
        indices.push(2);
        let mut normals: Vec<V> = Vec::new();
        normals.push(n[0]);
        normals.push(n[1]);
        normals.push(n[2]);
        proof {
            assert(vertices@ =~= v@);
            assert(normals@ =~= n@);
            assert(indices@ =~= seq![0usize, 1usize, 2usize]);
        }
        assert(!has_tile(tiles@, x as int, z as int));
        index.insert(key, tiles.len());
        tiles.push(Tile { tile_x: x, tile_z: z, vertices, indices, normals });
    }
}

proof fn lemma_place_step<V>(
    before: Seq<Tile<V>>,
    after: Seq<Tile<V>>,
    vertices: Seq<V>,
    cells: Seq<(i32, i32)>,
    indices: Seq<usize>,
    normals: Seq<V>,
    t: nat,
    x: int,
    z: int,
)
    requires
        tiles_hold(before, vertices, cells, indices, normals, t, x, z),
        covers(cells, indices, t as int, x, z),
        placed(
            before,
            after,
            x,
            z,
            gather(vertices, corners(indices, t as int)),
            gather(normals, corners(indices, t as int)),
        ),
    ensures
        tiles_hold(after, vertices, cells, indices, normals, t, x, z + 1),
{
    let tri = corners(indices, t as int);
    let here = cell_sources(cells, indices, x, z, t);
    assert(partial_sources(cells, indices, t, x, z, x, z) == here);
    assert(partial_sources(cells, indices, t, x, z + 1, x, z) == here + tri);
    assert forall|i: int| 0 <= i < after.len() implies {
        let src = partial_sources(
            cells,
            indices,
            t,
            x,
            z + 1,
            (#[trigger] after[i]).tile_x as int,
            after[i].tile_z as int,
        );
        src.len() > 0 && tile_holds(after[i], vertices, normals, src)
    } by {
        if i < before.len() {
            let b = before[i];
            let old_src = partial_sources(cells, indices, t, x, z, b.tile_x as int, b.tile_z as int);
            assert(tile_holds(b, vertices, normals, old_src));
            if b.tile_x == x && b.tile_z == z {
                assert(extended(b, after[i], gather(vertices, tri), gather(normals, tri)));
                assert(after[i].vertices@ =~= gather(vertices, here + tri));
                assert(after[i].normals@ =~= gather(normals, here + tri));
                assert(after[i].indices@ =~= count_up((here + tri).len()));
            } else {
                assert(after[i] == b);
            }
        } else {
            assert(!has_tile(before, x, z));
            assert(here.len() == 0);
            assert(here + tri =~= tri);
            assert(after[i].indices@ =~= count_up(tri.len()));
        }
    }
    assert forall|cx: int, cz: int|
        partial_sources(cells, indices, t, x, z + 1, cx, cz).len() > 0 implies #[trigger] has_tile(
        after,
        cx,
        cz,
    ) by {
        if cx == x && cz == z {
            if has_tile(before, x, z) {
                let i = choose|i: int|
                    0 <= i < before.len() && (#[trigger] before[i]).tile_x == x && before[i].tile_z == z;
                assert(after[i].tile_x == x && after[i].tile_z == z);
            } else {
                let i = before.len() as int;
                assert(after[i].tile_x == x && after[i].tile_z == z);
            }
        } else {
            assert(partial_sources(cells, indices, t, x, z, cx, cz) == partial_sources(
                cells,
                indices,
                t,
                x,
                z + 1,
                cx,
                cz,
            ));
            assert(has_tile(before, cx, cz));
            let i = choose|i: int|
                0 <= i < before.len() && (#[trigger] before[i]).tile_x == cx && before[i].tile_z == cz;
            assert(after[i].tile_x == cx && after[i].tile_z == cz);
        }
    }
    assert forall|i: int, j: int| 0 <= i < j < after.len() implies !((#[trigger] after[i]).tile_x == (
    #[trigger] after[j]).tile_x && after[i].tile_z == after[j].tile_z) by {
        if j < before.len() {
            assert(after[i].tile_x == before[i].tile_x && after[i].tile_z == before[i].tile_z);
            assert(after[j].tile_x == before[j].tile_x && after[j].tile_z == before[j].tile_z);
        } else {
            assert(after[i].tile_x == before[i].tile_x && after[i].tile_z == before[i].tile_z);
        }
    }
}

/// Decides whether every corner of every complete triangle refers to
/// one of `vertex_count` vertices.
pub fn indices_fit(indices: &[usize], vertex_count: usize) -> (ok: bool)
    ensures
        ok == indices_in_range(indices@, vertex_count as nat),
{
    let corners: usize = indices.len() / 3 * 3;
    let mut k: usize = 0;
    while k < corners
        invariant
            k <= corners,
            corners == 3 * triangle_count(indices@),
            corners <= indices@.len(),
            forall|j: int| 0 <= j < k ==> indices@[j] < vertex_count,
        decreases corners - k,
    {
        if indices[k] >= vertex_count {
            return false;
        }
        k += 1;
    }
    true
}

/// Splits a mesh into grid tiles.
///
/// `cells[i]` is the grid cell of vertex `i`, `normals[i]` its normal.
/// All three sequences must reach as far as the triangles refer to; they
/// need not be equally long. Every triangle is copied
/// into each cell of the bounding rectangle of its corner cells; a copy
/// consists of three new vertices with their normals and three new local
/// indices. The result has one tile per covered cell.
pub fn split_into_tiles<V: Copy>(
    vertices: &[V],
    cells: &[(i32, i32)],
    indices: &[usize],
    normals: &[V],
) -> (tiles: Vec<Tile<V>>)
    requires
        indices_in_range(indices@, vertices@.len()),
        indices_in_range(indices@, cells@.len()),
        indices_in_range(indices@, normals@.len()),
    ensures
        is_tiling(tiles@, vertices@, cells@, indices@, normals@),
{
    let mut tiles: Vec<Tile<V>> = Vec::new();
    let mut index: HashMap<u64, usize> = HashMap::new();
    let count: usize = indices.len() / 3;
    let mut t: usize = 0;
    while t < count
        invariant
            t <= count,
            count == indices@.len() / 3,
            indices@.len() <= usize::MAX,
            indices_in_range(indices@, vertices@.len()),
            indices_in_range(indices@, cells@.len()),
            indices_in_range(indices@, normals@.len()),
            is_tiling_of_first(tiles@, vertices@, cells@, indices@, normals@, t as nat),
            index_matches(index@, tiles@),
        decreases count - t,
    {
        let i0: usize = indices[3 * t];
        let i1: usize = indices[3 * t + 1];
        let i2: usize = indices[3 * t + 2];
        let c0: (i32, i32) = cells[i0];
        let c1: (i32, i32) = cells[i1];
        let c2: (i32, i32) = cells[i2];
        let min_x: i32 = min_of(c0.0, c1.0, c2.0);
        let max_x: i32 = max_of(c0.0, c1.0, c2.0);
        let min_z: i32 = min_of(c0.1, c1.1, c2.1);
        let max_z: i32 = max_of(c0.1, c1.1, c2.1);
        let v: [V; 3] = [vertices[i0], vertices[i1], vertices[i2]];
        let n: [V; 3] = [normals[i0], normals[i1], normals[i2]];
        proof {
            assert(v@ =~= gather(vertices@, corners(indices@, t as int)));
            assert(n@ =~= gather(normals@, corners(indices@, t as int)));
            assert forall|cx: int, cz: int|
                #[trigger] partial_sources(cells@, indices@, t as nat, min_x as int, min_z as int, cx, cz)
                    == cell_sources(cells@, indices@, cx, cz, t as nat) by {}
        }
        let mut x: i64 = min_x as i64;
        while x <= max_x as i64
            invariant
                min_x <= x <= max_x + 1,
                3 * t + 2 < indices@.len(),
                rectangle(cells@, indices@, t as int) == (
                    min_x as int,
                    max_x as int,
                    min_z as int,
                    max_z as int,
                ),
                v@ == gather(vertices@, corners(indices@, t as int)),
                n@ == gather(normals@, corners(indices@, t as int)),
                tiles_hold(tiles@, vertices@, cells@, indices@, normals@, t as nat, x as int, min_z as int),
                index_matches(index@, tiles@),
            decreases max_x - x + 1,
        {
            let mut z: i64 = min_z as i64;
            while z <= max_z as i64
                invariant
                    min_x <= x <= max_x,
                    min_z <= z <= max_z + 1,
                    rectangle(cells@, indices@, t as int) == (
                        min_x as int,
                        max_x as int,
                        min_z as int,
                        max_z as int,
                    ),
                    v@ == gather(vertices@, corners(indices@, t as int)),
                    n@ == gather(normals@, corners(indices@, t as int)),
                    tiles_hold(tiles@, vertices@, cells@, indices@, normals@, t as nat, x as int, z as int),
                    index_matches(index@, tiles@),
                decreases max_z - z + 1,
            {
                let ghost before = tiles@;
                place(&mut tiles, &mut index, x as i32, z as i32, v, n);
                proof {
                    lemma_place_step(
                        before,
                        tiles@,
                        vertices@,
                        cells@,
                        indices@,
                        normals@,
                        t as nat,
                        x as int,
                        z as int,
                    );
                }
                z += 1;
            }
            proof {
                let z_end: int = max_z + 1;
                let x_next: int = x + 1;
                assert forall|cx: int, cz: int|
                    partial_sources(cells@, indices@, t as nat, x as int, z_end, cx, cz)
                        == #[trigger] partial_sources(cells@, indices@, t as nat, x_next, min_z as int, cx, cz) by {}
            }
            x += 1;
        }
        proof {
            let x_end: int = max_x + 1;
            assert forall|cx: int, cz: int|
                partial_sources(cells@, indices@, t as nat, x_end, min_z as int, cx, cz)
                    == #[trigger] cell_sources(cells@, indices@, cx, cz, (t + 1) as nat) by {}
        }
        t += 1;
    }
    tiles
}

/// What the first `m` triangles copy into a cell stays in place when more
/// triangles follow.
pub proof fn lemma_sources_grow(
    cells: Seq<(i32, i32)>,
    indices: Seq<usize>,
    x: int,
    z: int,
    m: nat,
    n: nat,
)
    requires
        m <= n,
    ensures
        cell_sources(cells, indices, x, z, m).len() <= cell_sources(cells, indices, x, z, n).len(),
        cell_sources(cells, indices, x, z, n).subrange(
            0,
            cell_sources(cells, indices, x, z, m).len() as int,
        ) == cell_sources(cells, indices, x, z, m),
    decreases n,
{
    let short = cell_sources(cells, indices, x, z, m);
    let long = cell_sources(cells, indices, x, z, n);
    if m == n {
        assert(long.subrange(0, short.len() as int) =~= short);
    } else {
        lemma_sources_grow(cells, indices, x, z, m, (n - 1) as nat);
        let prev = cell_sources(cells, indices, x, z, (n - 1) as nat);
        assert(prev.subrange(0, short.len() as int) == short);
        assert(long.subrange(0, short.len() as int) =~= prev.subrange(0, short.len() as int));
    }
}

/// The tile holds a copy of triangle `t` of the mesh at local vertices
/// `at`, `at + 1`, `at + 2`.
pub open spec fn holds_copy_at<V>(
    tile: Tile<V>,
    vertices: Seq<V>,
    normals: Seq<V>,
    indices: Seq<usize>,
    t: int,
    at: int,
) -> bool {
    &&& 0 <= at
    &&& at + 3 <= tile.vertices@.len()
    &&& tile.vertices@.subrange(at, at + 3) == gather(vertices, corners(indices, t))
    &&& tile.normals@.subrange(at, at + 3) == gather(normals, corners(indices, t))
    &&& tile.indices@.subrange(at, at + 3) == seq![at as usize, (at + 1) as usize, (at + 2) as usize]
}

/// Every triangle is present in every tile of the bounding rectangle of
/// its corner cells, whether or not a corner lies in that tile. Its copy
/// stands behind the copies of the earlier triangles that cover the cell.
pub proof fn lemma_triangle_in_covered_tiles<V>(
    tiles: Seq<Tile<V>>,
    vertices: Seq<V>,
    cells: Seq<(i32, i32)>,
    indices: Seq<usize>,
    normals: Seq<V>,
    t: int,
    x: int,
    z: int,
)
    requires
        is_tiling(tiles, vertices, cells, indices, normals),
        0 <= t < triangle_count(indices),
        covers(cells, indices, t, x, z),
    ensures
        exists|i: int|
            0 <= i < tiles.len() && (#[trigger] tiles[i]).tile_x == x && tiles[i].tile_z == z
                && holds_copy_at(
                tiles[i],
                vertices,
                normals,
                indices,
                t,
                cell_sources(cells, indices, x, z, t as nat).len() as int,
            ),
{
    let count = triangle_count(indices);
    let all = cell_sources(cells, indices, x, z, count);
    let upto = cell_sources(cells, indices, x, z, (t + 1) as nat);
    let before = cell_sources(cells, indices, x, z, t as nat);
    let tri = corners(indices, t);
    let at = before.len() as int;
    assert(upto == before + tri);
    lemma_sources_grow(cells, indices, x, z, (t + 1) as nat, count);
    assert(all.subrange(at, at + 3) =~= tri) by {
        assert forall|k: int| 0 <= k < 3 implies all.subrange(at, at + 3)[k] == tri[k] by {
            assert(all.subrange(0, upto.len() as int)[at + k] == upto[at + k]);
        }
    }
    assert(has_tile(tiles, x, z));
    let i = choose|i: int| 0 <= i < tiles.len() && (#[trigger] tiles[i]).tile_x == x && tiles[i].tile_z == z;
    assert(tile_holds(tiles[i], vertices, normals, all));
    assert forall|k: int| 0 <= k < 3 implies all[at + k] == tri[k] by {
        assert(all.subrange(at, at + 3)[k] == all[at + k]);
    }
    assert(tiles[i].vertices@.subrange(at, at + 3) =~= gather(vertices, tri));
    assert(tiles[i].normals@.subrange(at, at + 3) =~= gather(normals, tri));
    assert(tiles[i].indices@.subrange(at, at + 3) =~= seq![
        at as usize,
        (at + 1) as usize,
        (at + 2) as usize,
    ]);
}

proof fn lemma_one_cell_sources(
    cells: Seq<(i32, i32)>,
    indices: Seq<usize>,
    x: i32,
    z: i32,
    cx: int,
    cz: int,
    n: nat,
)
    requires
        n <= triangle_count(indices),
        forall|k: int| 0 <= k < 3 * triangle_count(indices) ==> cells[#[trigger] indices[k] as int] == (x, z),
    ensures
        cell_sources(cells, indices, cx, cz, n) == if cx == x && cz == z {
            indices.take(3 * n as int)
        } else {
            Seq::empty()
        },
    decreases n,
{
    if n == 0 {
        assert(indices.take(0) =~= Seq::<usize>::empty());
    } else {
        lemma_one_cell_sources(cells, indices, x, z, cx, cz, (n - 1) as nat);
        let t: int = n - 1;
        assert(cells[indices[3 * t] as int] == (x, z));
        assert(cells[indices[3 * t + 1] as int] == (x, z));
        assert(cells[indices[3 * t + 2] as int] == (x, z));
        if cx == x && cz == z {
            assert(indices.take(3 * t) + corners(indices, t) =~= indices.take(3 * n as int));
        }
    }
}

/// A mesh with at least one triangle whose corners all lie in one cell
/// yields exactly one tile, at that cell, and the tile holds every
/// triangle of the mesh exactly once, in the order of the mesh.
pub proof fn lemma_single_cell<V>(
    tiles: Seq<Tile<V>>,
    vertices: Seq<V>,
    cells: Seq<(i32, i32)>,
    indices: Seq<usize>,
    normals: Seq<V>,
    x: i32,
    z: i32,
)
    requires
        is_tiling(tiles, vertices, cells, indices, normals),
        triangle_count(indices) > 0,
        forall|k: int| 0 <= k < 3 * triangle_count(indices) ==> cells[#[trigger] indices[k] as int] == (x, z),
    ensures
        tiles.len() == 1,
        tiles[0].tile_x == x,
        tiles[0].tile_z == z,
        tile_holds(tiles[0], vertices, normals, indices.take(3 * triangle_count(indices) as int)),
{
    let count = triangle_count(indices);
    lemma_one_cell_sources(cells, indices, x, z, x as int, z as int, count);
    assert(has_tile(tiles, x as int, z as int));
    assert forall|i: int| 0 <= i < tiles.len() implies (#[trigger] tiles[i]).tile_x == x && tiles[i].tile_z
        == z by {
        lemma_one_cell_sources(cells, indices, x, z, tiles[i].tile_x as int, tiles[i].tile_z as int, count);
    }
    if tiles.len() > 1 {
        assert(tiles[0].tile_x == tiles[1].tile_x && tiles[0].tile_z == tiles[1].tile_z);
    }
}

proof fn lemma_sources_whole_triangles(
    cells: Seq<(i32, i32)>,
    indices: Seq<usize>,
    x: int,
    z: int,
    n: nat,
)
    ensures
        cell_sources(cells, indices, x, z, n).len() % 3 == 0,
    decreases n,
{
    if n > 0 {
        lemma_sources_whole_triangles(cells, indices, x, z, (n - 1) as nat);
    }
}

/// Every tile is a mesh of its own: it has one normal and one index per
/// vertex, its vertices come in whole triangles, and each of its indices
/// refers to one of its own vertices.
pub proof fn lemma_tiles_are_meshes<V>(
    tiles: Seq<Tile<V>>,
    vertices: Seq<V>,
    cells: Seq<(i32, i32)>,
    indices: Seq<usize>,
    normals: Seq<V>,
    i: int,
)
    requires
        is_tiling(tiles, vertices, cells, indices, normals),
        0 <= i < tiles.len(),
        tiles[i].vertices@.len() <= usize::MAX,
    ensures
        tiles[i].normals@.len() == tiles[i].vertices@.len(),
        tiles[i].indices@.len() == tiles[i].vertices@.len(),
        tiles[i].vertices@.len() % 3 == 0,
        tiles[i].vertices@.len() > 0,
        forall|k: int| 0 <= k < tiles[i].indices@.len() ==> tiles[i].indices@[k] == k,
        indices_in_range(tiles[i].indices@, tiles[i].vertices@.len()),
{
    lemma_sources_whole_triangles(
        cells,
        indices,
        tiles[i].tile_x as int,
        tiles[i].tile_z as int,
        triangle_count(indices),
    );
}

} // verus!
