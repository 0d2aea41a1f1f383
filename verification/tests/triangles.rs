use walkmesh::triangulate::{triangulate, triangulate_face};

#[test]
fn triangle_stays_as_it_is() {
    assert_eq!(triangulate(&vec![vec![4, 5, 6]]), vec![4, 5, 6]);
}

#[test]
fn quad_becomes_two_triangles() {
    assert_eq!(triangulate(&vec![vec![1, 2, 3, 4]]), vec![1, 2, 3, 1, 3, 4]);
}

#[test]
fn hexagon_fans_out_from_its_first_corner() {
    let face: Vec<usize> = vec![10, 11, 12, 13, 14, 15];
    let flat = triangulate(&vec![face.clone()]);
    assert_eq!(flat, vec![10, 11, 12, 10, 12, 13, 10, 13, 14, 10, 14, 15]);
}

#[test]
fn every_fan_has_two_triangles_less_than_corners() {
    for n in 3usize..40 {
        let face: Vec<usize> = (100..100 + n).collect();
        let flat = triangulate(&vec![face.clone()]);
        assert_eq!(flat.len(), 3 * (n - 2));
        for t in 0..n - 2 {
            assert_eq!(flat[3 * t], face[0]);
            assert_eq!(flat[3 * t + 1], face[t + 1]);
            assert_eq!(flat[3 * t + 2], face[t + 2]);
        }
    }
}

#[test]
fn faces_below_three_corners_are_dropped() {
    let faces: Vec<Vec<usize>> = vec![vec![], vec![1], vec![1, 2], vec![7, 8, 9], vec![3, 4]];
    assert_eq!(triangulate(&faces), vec![7, 8, 9]);
}

#[test]
fn faces_are_triangulated_in_order() {
    let faces: Vec<Vec<usize>> = vec![vec![1, 2, 3, 4], vec![5, 6, 7], vec![4, 3, 2, 1]];
    assert_eq!(triangulate(&faces), vec![1, 2, 3, 1, 3, 4, 5, 6, 7, 4, 3, 2, 4, 2, 1]);
}

#[test]
fn no_faces_no_triangles() {
    assert!(triangulate(&Vec::new()).is_empty());
}

#[test]
fn a_face_is_appended_to_what_is_there() {
    let mut out: Vec<usize> = vec![9, 9, 9];
    triangulate_face(&vec![1, 2, 3, 4], &mut out);
    assert_eq!(out, vec![9, 9, 9, 1, 2, 3, 1, 3, 4]);
    triangulate_face(&vec![1, 2], &mut out);
    assert_eq!(out.len(), 9);
}
