use meshbool::triangulate::{triangulate_convex, triangulate_polygon, PolyVert};
use nalgebra::{Point2, Point3};

fn poly(ids: &[i32]) -> Vec<PolyVert<Point2<f64>>> {
    ids.iter()
        .enumerate()
        .map(|(k, &idx)| PolyVert { pos: Point2::new(k as f64, (k * k) as f64), idx })
        .collect()
}

#[test]
fn fan_of_five_points_connects_the_first_to_each_pair() {
    let points: Vec<Point3<f64>> = (0..5).map(|i| Point3::new(i as f64, 1.0, 0.0)).collect();
    let tris = triangulate_polygon(&points);
    assert_eq!(tris, vec![[0, 1, 2], [0, 2, 3], [0, 3, 4]]);
}

#[test]
fn fan_needs_three_points() {
    let two: Vec<Point3<f64>> = vec![Point3::new(0.0, 0.0, 0.0), Point3::new(1.0, 0.0, 0.0)];
    assert!(triangulate_polygon(&two).is_empty());
    let none: Vec<Point3<f64>> = Vec::new();
    assert!(triangulate_polygon(&none).is_empty());
    let three: Vec<Point3<f64>> = vec![Point3::origin(); 3];
    assert_eq!(triangulate_polygon(&three), vec![[0, 1, 2]]);
}

#[test]
fn fan_of_n_points_has_n_minus_two_triangles() {
    for n in 3..40usize {
        let points: Vec<u8> = vec![0; n];
        let tris = triangulate_polygon(&points);
        assert_eq!(tris.len(), n - 2);
        for (i, t) in tris.iter().enumerate() {
            assert_eq!(*t, [0, i + 1, i + 2]);
        }
    }
}

#[test]
fn convex_square_alternates_ends() {
    let polys = vec![poly(&[10, 11, 12, 13])];
    assert_eq!(triangulate_convex(&polys), vec![[10, 11, 13], [11, 12, 13]]);
}

#[test]
fn convex_pentagon_strip() {
    let polys = vec![poly(&[0, 1, 2, 3, 4])];
    assert_eq!(triangulate_convex(&polys), vec![[0, 1, 4], [1, 3, 4], [1, 2, 3]]);
}

#[test]
fn convex_polygons_follow_each_other() {
    let polys = vec![poly(&[5, 6, 7]), poly(&[20, 21, 22, 23, 24, 25])];
    let tris = triangulate_convex(&polys);
    assert_eq!(
        tris,
        vec![[5, 6, 7], [20, 21, 25], [21, 24, 25], [21, 22, 24], [22, 23, 24]]
    );
}

#[test]
fn convex_strip_count_and_winding() {
    for n in 2..30 {
        let ids: Vec<i32> = (0..n).map(|i| 100 + i).collect();
        let tris = triangulate_convex(&vec![poly(&ids)]);
        assert_eq!(tris.len() as i32, n - 2);
        for t in &tris {
            assert!(t[0] < t[1] && t[1] < t[2]);
        }
    }
}

#[test]
fn convex_point_after_a_polygon_adds_nothing() {
    let polys = vec![poly(&[0, 1, 2, 3]), poly(&[9])];
    assert_eq!(triangulate_convex(&polys), vec![[0, 1, 3], [1, 2, 3]]);
}

#[test]
fn convex_segment_gives_no_triangle() {
    let polys = vec![poly(&[0, 1])];
    assert!(triangulate_convex(&polys).is_empty());
}
