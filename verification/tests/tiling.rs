use walkmesh::tiles::{indices_fit, split_into_tiles, Tile};

type Point = [f32; 3];

fn cell_of(p: &Point, tile_size: f32) -> (i32, i32) {
    ((p[0] / tile_size).floor() as i32, (p[2] / tile_size).floor() as i32)
}

fn split(vertices: &Vec<Point>, indices: &Vec<usize>, normals: &Vec<Point>, tile_size: f32) -> Vec<Tile<Point>> {
    let cells: Vec<(i32, i32)> = vertices.iter().map(|p| cell_of(p, tile_size)).collect();
    split_into_tiles(vertices, &cells, indices, normals)
}

fn tile_at<'a>(tiles: &'a Vec<Tile<Point>>, x: i32, z: i32) -> &'a Tile<Point> {
    let found: Vec<&Tile<Point>> = tiles.iter().filter(|t| t.tile_x == x && t.tile_z == z).collect();
    assert_eq!(found.len(), 1);
    found[0]
}

fn quad() -> (Vec<Point>, Vec<usize>, Vec<Point>) {
    (
        vec![[0.0, 0.0, 0.0], [1.0, 0.0, 0.0], [1.0, 0.0, 1.0], [0.0, 0.0, 1.0]],
        vec![0, 1, 2, 0, 2, 3],
        vec![[0.0, 1.0, 0.0], [0.1, 1.0, 0.0], [0.2, 1.0, 0.0], [0.3, 1.0, 0.0]],
    )
}

#[test]
fn mesh_inside_one_cell_gives_one_tile() {
    let (vertices, indices, normals) = quad();
    let tiles = split(&vertices, &indices, &normals, 988.0);
    assert_eq!(tiles.len(), 1);
    let tile = &tiles[0];
    assert_eq!((tile.tile_x, tile.tile_z), (0, 0));
    assert_eq!(
        tile.vertices,
        vec![vertices[0], vertices[1], vertices[2], vertices[0], vertices[2], vertices[3]]
    );
    assert_eq!(
        tile.normals,
        vec![normals[0], normals[1], normals[2], normals[0], normals[2], normals[3]]
    );
    assert_eq!(tile.indices, vec![0, 1, 2, 3, 4, 5]);
}

#[test]
fn mesh_inside_another_cell_gives_one_tile_there() {
    let vertices: Vec<Point> = vec![[-3.0, 0.0, 25.0], [-1.0, 0.0, 25.0], [-2.0, 0.0, 29.0]];
    let normals = vertices.clone();
    let tiles = split(&vertices, &vec![0, 1, 2], &normals, 10.0);
    assert_eq!(tiles.len(), 1);
    assert_eq!((tiles[0].tile_x, tiles[0].tile_z), (-1, 2));
}

#[test]
fn triangle_with_corners_in_three_cells_fills_the_rectangle() {
    let vertices: Vec<Point> = vec![[0.5, 0.0, 0.5], [2.5, 3.0, 0.5], [1.5, 7.0, 1.5]];
    let normals: Vec<Point> = vec![[1.0, 0.0, 0.0], [0.0, 1.0, 0.0], [0.0, 0.0, 1.0]];
    let tiles = split(&vertices, &vec![0, 1, 2], &normals, 1.0);
    assert_eq!(tiles.len(), 6);
    for x in 0..=2 {
        for z in 0..=1 {
            let tile = tile_at(&tiles, x, z);
            assert_eq!(tile.vertices, vertices);
            assert_eq!(tile.normals, normals);
            assert_eq!(tile.indices, vec![0, 1, 2]);
        }
    }
}

#[test]
fn cell_without_a_corner_inside_the_rectangle_gets_the_triangle_too() {
    let vertices: Vec<Point> = vec![[0.5, 0.0, 0.5], [0.5, 0.0, 2.5], [2.5, 0.0, 0.5]];
    let tiles = split(&vertices, &vec![0, 1, 2], &vertices.clone(), 1.0);
    assert_eq!(tiles.len(), 9);
    assert_eq!(tile_at(&tiles, 2, 2).vertices, vertices);
    assert_eq!(tile_at(&tiles, 1, 1).vertices, vertices);
}

#[test]
fn tiles_keep_triangle_order_and_share_nothing() {
    let vertices: Vec<Point> = vec![
        [0.5, 0.0, 0.5],
        [0.6, 0.0, 0.5],
        [0.5, 0.0, 0.6],
        [1.5, 1.0, 0.5],
        [1.6, 1.0, 0.5],
        [1.5, 1.0, 0.6],
    ];
    let normals: Vec<Point> = vertices.iter().map(|p| [p[1], 1.0, 0.0]).collect();
    let indices: Vec<usize> = vec![0, 1, 2, 3, 4, 5, 0, 1, 3, 2, 1, 0];
    let tiles = split(&vertices, &indices, &normals, 1.0);
    assert_eq!(tiles.len(), 2);
    let west = tile_at(&tiles, 0, 0);
    let expect_west: Vec<usize> = vec![0, 1, 2, 0, 1, 3, 2, 1, 0];
    assert_eq!(west.vertices, expect_west.iter().map(|&i| vertices[i]).collect::<Vec<Point>>());
    assert_eq!(west.normals, expect_west.iter().map(|&i| normals[i]).collect::<Vec<Point>>());
    assert_eq!(west.indices, (0..9).collect::<Vec<usize>>());
    let east = tile_at(&tiles, 1, 0);
    let expect_east: Vec<usize> = vec![3, 4, 5, 0, 1, 3];
    assert_eq!(east.vertices, expect_east.iter().map(|&i| vertices[i]).collect::<Vec<Point>>());
    assert_eq!(east.indices, (0..6).collect::<Vec<usize>>());
}

#[test]
fn negative_coordinates_round_down() {
    let vertices: Vec<Point> = vec![[-0.5, 0.0, -0.5], [0.5, 0.0, -0.5], [-0.5, 0.0, 0.5]];
    let tiles = split(&vertices, &vec![0, 1, 2], &vertices.clone(), 1.0);
    assert_eq!(tiles.len(), 4);
    for (x, z) in [(-1, -1), (0, -1), (-1, 0), (0, 0)] {
        assert_eq!(tile_at(&tiles, x, z).indices, vec![0, 1, 2]);
    }
}

#[test]
fn incomplete_trailing_triangle_is_ignored() {
    let (vertices, _, normals) = quad();
    let tiles = split(&vertices, &vec![0, 1, 2, 3, 0], &normals, 988.0);
    assert_eq!(tiles.len(), 1);
    assert_eq!(tiles[0].indices, vec![0, 1, 2]);
}

#[test]
fn no_triangles_no_tiles() {
    let (vertices, _, normals) = quad();
    assert!(split(&vertices, &Vec::new(), &normals, 988.0).is_empty());
    assert!(split(&vertices, &vec![0, 1], &normals, 988.0).is_empty());
}

#[test]
fn payload_can_be_anything_that_copies() {
    let names: Vec<char> = vec!['a', 'b', 'c'];
    let marks: Vec<char> = vec!['x', 'y', 'z'];
    let cells: Vec<(i32, i32)> = vec![(5, 5), (5, 6), (5, 5)];
    let tiles = split_into_tiles(&names, &cells, &vec![2, 1, 0], &marks);
    assert_eq!(tiles.len(), 2);
    for tile in &tiles {
        assert_eq!(tile.tile_x, 5);
        assert_eq!(tile.vertices, vec!['c', 'b', 'a']);
        assert_eq!(tile.normals, vec!['z', 'y', 'x']);
    }
}

#[test]
fn corners_must_refer_to_vertices() {
    assert!(indices_fit(&[0, 1, 2, 2, 1, 3], 4));
    assert!(!indices_fit(&[0, 1, 2, 2, 1, 4], 4));
    assert!(!indices_fit(&[0, 0, 0], 0));
    assert!(indices_fit(&[], 0));
}

#[test]
fn corners_of_an_incomplete_triangle_are_not_looked_at() {
    assert!(indices_fit(&[0, 1, 2, 9, 9], 3));
    assert!(indices_fit(&[9, 9], 0));
}

fn direct_split(
    vertices: &Vec<Point>,
    indices: &Vec<usize>,
    normals: &Vec<Point>,
    tile_size: f32,
) -> std::collections::BTreeMap<(i32, i32), (Vec<Point>, Vec<usize>, Vec<Point>)> {
    let mut tiles: std::collections::BTreeMap<(i32, i32), (Vec<Point>, Vec<usize>, Vec<Point>)> =
        std::collections::BTreeMap::new();
    for triangle in indices.chunks(3) {
        if triangle.len() != 3 {
            continue;
        }
        let cells: Vec<(i32, i32)> = triangle.iter().map(|&i| cell_of(&vertices[i], tile_size)).collect();
        let min_x = cells.iter().map(|c| c.0).min().unwrap();
        let max_x = cells.iter().map(|c| c.0).max().unwrap();
        let min_z = cells.iter().map(|c| c.1).min().unwrap();
        let max_z = cells.iter().map(|c| c.1).max().unwrap();
        for x in min_x..=max_x {
            for z in min_z..=max_z {
                let entry = tiles.entry((x, z)).or_insert_with(|| (Vec::new(), Vec::new(), Vec::new()));
                let base = entry.0.len();
                for &i in triangle {
                    entry.0.push(vertices[i]);
                    entry.2.push(normals[i]);
                }
                entry.1.extend_from_slice(&[base, base + 1, base + 2]);
            }
        }
    }
    tiles
}

#[test]
fn scattered_triangles_land_where_a_direct_count_puts_them() {
    let mut state: u64 = 0x2545_f491_4f6c_dd1d;
    let mut next = move || {
        state ^= state << 13;
        state ^= state >> 7;
        state ^= state << 17;
        state
    };
    for round in 0..20 {
        let vertex_count = 3 + (next() % 40) as usize;
        let vertices: Vec<Point> = (0..vertex_count)
            .map(|_| {
                [
                    (next() % 2000) as f32 / 100.0 - 10.0,
                    (next() % 100) as f32,
                    (next() % 2000) as f32 / 100.0 - 10.0,
                ]
            })
            .collect();
        let normals: Vec<Point> = (0..vertex_count).map(|i| [i as f32, round as f32, 1.0]).collect();
        let corner_count = (next() % 90) as usize;
        let indices: Vec<usize> = (0..corner_count).map(|_| (next() % vertex_count as u64) as usize).collect();
        let tile_size = 1.0 + (next() % 5) as f32;

        let expected = direct_split(&vertices, &indices, &normals, tile_size);
        let tiles = split(&vertices, &indices, &normals, tile_size);
        assert_eq!(tiles.len(), expected.len());
        for tile in &tiles {
            let (v, i, n) = &expected[&(tile.tile_x, tile.tile_z)];
            assert_eq!(&tile.vertices, v);
            assert_eq!(&tile.indices, i);
            assert_eq!(&tile.normals, n);
        }
    }
}

#[test]
fn cells_at_the_ends_of_the_grid_are_told_apart() {
    let names: Vec<u8> = vec![1, 2, 3, 4, 5, 6, 7, 8, 9, 10, 11, 12];
    let cells: Vec<(i32, i32)> = vec![
        (i32::MIN, i32::MIN),
        (i32::MIN, i32::MIN),
        (i32::MIN, i32::MIN),
        (i32::MAX, i32::MAX),
        (i32::MAX, i32::MAX),
        (i32::MAX, i32::MAX),
        (i32::MIN, i32::MAX),
        (i32::MIN, i32::MAX),
        (i32::MIN, i32::MAX),
        (-1, 0),
        (-1, 0),
        (-1, 0),
    ];
    let indices: Vec<usize> = (0..12).collect();
    let tiles = split_into_tiles(&names, &cells, &indices, &names);
    assert_eq!(tiles.len(), 4);
    for tile in &tiles {
        assert_eq!(tile.indices, vec![0, 1, 2]);
        let first = tile.vertices[0] as usize - 1;
        assert_eq!((tile.tile_x, tile.tile_z), cells[first]);
    }
}
