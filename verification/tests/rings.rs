use meshbool::rings::{EarClipping, PolygonRings};
use meshbool::triangulate::PolyVert;

fn polys(spec: &[&[i32]]) -> Vec<Vec<PolyVert<()>>> {
    spec.iter()
        .map(|p| p.iter().map(|&idx| PolyVert { pos: (), idx }).collect())
        .collect()
}

#[test]
fn rings_are_built_one_polygon_after_the_other() {
    let (rings, starts) = PolygonRings::from_polygons(&polys(&[&[7, 8, 9, 10], &[3, 4, 5]]));
    assert_eq!(starts, vec![0, 4]);
    assert_eq!(rings.len(), 7);
    let v0 = rings.node(0);
    assert_eq!((v0.mesh_idx, v0.left, v0.right), (7, 3, 1));
    let v6 = rings.node(6);
    assert_eq!((v6.mesh_idx, v6.left, v6.right), (5, 5, 4));
    assert_eq!(rings.loop_verts(0), (vec![0, 1, 2, 3], Some(0)));
    assert_eq!(rings.loop_verts(5), (vec![5, 6, 4], Some(5)));
}

#[test]
fn single_vertex_polygon_links_to_itself() {
    let (rings, _) = PolygonRings::from_polygons(&polys(&[&[42]]));
    let v = rings.node(0);
    assert_eq!((v.left, v.right), (0, 0));
    assert!(!rings.clipped(0));
    assert!(rings.is_degenerate(0));
    assert_eq!(rings.loop_verts(0), (vec![], None));
}

#[test]
fn clipping_an_ear_links_its_neighbours() {
    let (mut rings, _) = PolygonRings::from_polygons(&polys(&[&[10, 11, 12, 13]]));
    assert_eq!(rings.clip_ear(1), Some([10, 11, 12]));
    assert!(rings.clipped(1));
    assert!(!rings.clipped(0));
    assert_eq!(rings.node(0).right, 2);
    assert_eq!(rings.node(2).left, 0);
    // the clipped ear keeps its own links
    assert_eq!((rings.node(1).left, rings.node(1).right), (0, 2));
    assert_eq!(rings.loop_verts(0), (vec![0, 2, 3], Some(0)));
    // a walk from the clipped vert restarts at an un-clipped one
    assert_eq!(rings.loop_verts(1), (vec![0, 2, 3], Some(0)));
}

#[test]
fn a_polygon_of_n_verts_gives_n_minus_two_triangles() {
    let n = 7;
    let ids: Vec<i32> = (0..n).collect();
    let (mut rings, _) = PolygonRings::from_polygons(&polys(&[&ids]));
    let mut tris = Vec::new();
    let mut v = 0;
    let (verts, _) = rings.loop_verts(0);
    let mut num_tri = verts.len() as i32 - 2;
    while num_tri > 0 {
        if let Some(t) = rings.clip_ear(v) {
            tris.push(t);
        }
        num_tri -= 1;
        v = rings.node(v).right;
    }
    assert_eq!(tris.len(), (n - 2) as usize);
    assert!(rings.is_degenerate(v));
    assert_eq!(rings.node(v).left, rings.node(v).right);
    assert_eq!(rings.loop_verts(v), (vec![], None));
}

#[test]
fn degenerate_triangles_are_filtered() {
    let (mut rings, _) = PolygonRings::from_polygons(&polys(&[&[1, 2, 1, 3]]));
    assert_eq!(rings.clip_ear(1), None);
    assert_eq!(rings.clip_ear(2), None);
    assert!(rings.clipped(2));
}

#[test]
fn walk_from_a_vert_clipped_twice() {
    let (mut rings, _) = PolygonRings::from_polygons(&polys(&[&[0, 1, 2, 3, 4, 5]]));
    rings.clip_ear(2);
    rings.clip_ear(3);
    rings.clip_ear(1);
    // 2's right (3) is clipped, and 3's left (2) too: the walk moves on from 3.
    assert_eq!(rings.loop_verts(2), (vec![0, 4, 5], Some(0)));
}

#[test]
fn keyhole_joins_hole_to_outer() {
    let (mut rings, _) = PolygonRings::from_polygons(&polys(&[&[0, 1, 2, 3], &[10, 11, 12]]));
    let (new_start, new_connector) = rings.join_polygons(4, 1);
    assert_eq!((new_start, new_connector), (7, 8));
    assert_eq!(rings.node(7).mesh_idx, 10);
    assert_eq!(rings.node(8).mesh_idx, 1);
    let (verts, start) = rings.loop_verts(1);
    assert_eq!(verts, vec![1, 2, 3, 0, 8, 7, 5, 6, 4]);
    assert_eq!(start, Some(1));
    assert_eq!(verts.len(), 4 + 3 + 2);
    // the old hole start now leads to the connector
    assert_eq!(rings.node(4).right, 1);
    assert_eq!(rings.node(1).left, 4);
    // ear clipping the joined ring leaves two verts after n - 2 clips
    let mut v = 1;
    let mut clips = 0;
    while !rings.is_degenerate(v) {
        rings.clip_ear(v);
        clips += 1;
        v = rings.node(v).right;
    }
    assert_eq!(clips, 9 - 2);
}

#[test]
fn keyhole_with_single_vertex_rings() {
    let (mut rings, _) = PolygonRings::from_polygons(&polys(&[&[0], &[1]]));
    let (s, c) = rings.join_polygons(0, 1);
    assert_eq!((s, c), (2, 3));
    assert_eq!(rings.loop_verts(1), (vec![1, 3, 2, 0], Some(1)));
}

#[test]
fn ear_clipping_cuts_n_minus_two_ears() {
    let (mut rings, _) = PolygonRings::from_polygons(&polys(&[&[0, 1, 2, 3, 4, 5], &[7, 8, 9]]));
    let marks = vec![false; rings.len()];
    let mut clipping = EarClipping::new(&rings, 0, marks);
    assert_eq!(clipping.remaining(), 4);
    assert!(clipping.holds(3) && !clipping.holds(7));
    let mut tris = Vec::new();
    // choose ear 2 first, then let the backup take over
    let (v, tri) = clipping.clip(&mut rings, Some(2));
    assert_eq!(v, 2);
    assert_eq!(tri, Some([1, 2, 3]));
    assert_eq!(clipping.current(), 3);
    assert!(!clipping.holds(2));
    tris.push(tri);
    while clipping.remaining() > 0 {
        let (_, tri) = clipping.clip(&mut rings, None);
        tris.push(tri);
    }
    assert_eq!(tris.len(), 6 - 2);
    assert_eq!(tris, vec![Some([1, 2, 3]), Some([1, 3, 4]), Some([1, 4, 5]), Some([1, 5, 0])]);
    assert!(rings.is_degenerate(clipping.current()));
    let marks = clipping.finish(&rings);
    assert!(marks.iter().all(|m| !m));
    // the other ring is untouched
    assert_eq!(rings.loop_verts(7), (vec![7, 8, 6], Some(7)));
}

/// Directed mesh-index edges of the live rings, one per live vertex.
fn ring_edges(rings: &PolygonRings) -> Vec<(i32, i32)> {
    let mut edges = Vec::new();
    for v in 0..rings.len() {
        if !rings.clipped(v) {
            let n = rings.node(v);
            edges.push((n.mesh_idx, rings.node(n.right).mesh_idx));
        }
    }
    edges
}

/// Adds `+1` for each edge of `plus` and `-1` for each of `minus`, by pair.
fn surplus(plus: &[(i32, i32)], minus: &[(i32, i32)]) -> std::collections::BTreeMap<(i32, i32), i32> {
    let mut m = std::collections::BTreeMap::new();
    for e in plus {
        *m.entry(*e).or_insert(0) += 1;
    }
    for e in minus {
        *m.entry(*e).or_insert(0) -= 1;
    }
    m
}

fn balanced(m: &std::collections::BTreeMap<(i32, i32), i32>) -> bool {
    m.iter().all(|(&(a, b), &c)| m.get(&(b, a)).copied().unwrap_or(0) == c)
}

#[test]
fn triangles_and_rings_balance_the_input_edges() {
    let (mut rings, _) = PolygonRings::from_polygons(&polys(&[&[0, 1, 2, 3, 4], &[7, 6, 5]]));
    let input = ring_edges(&rings);
    let mut tris: Vec<[i32; 3]> = Vec::new();
    // a key-hole from the hole vertex 5 to the outer vertex 0
    rings.join_polygons(7, 0);
    let mut v = 0;
    for _ in 0..8 {
        if let Some(t) = rings.clip_ear(v) {
            tris.push(t);
        }
        v = rings.node(v).right;
        let mut plus: Vec<(i32, i32)> = ring_edges(&rings);
        for t in &tris {
            plus.extend([(t[0], t[1]), (t[1], t[2]), (t[2], t[0])]);
        }
        let s = surplus(&plus, &input);
        assert!(balanced(&s));
    }
    // with the ring down to two vertices, the triangles alone balance
    let mut tri_edges: Vec<(i32, i32)> = Vec::new();
    for t in &tris {
        tri_edges.extend([(t[0], t[1]), (t[1], t[2]), (t[2], t[0])]);
    }
    assert!(balanced(&surplus(&tri_edges, &input)));
    // only triangles of three distinct mesh indices are returned
    assert!(tris.iter().all(|t| t[0] != t[1] && t[1] != t[2] && t[2] != t[0]));
}
