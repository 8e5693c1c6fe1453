use meshbool::mesh_layout::{
    can_split_properties,
    flatten_positions, index_buffer_values, interleave_attributes, interleaved_mesh, sequential_indices,
    solid_buffers, split_positions_normals, split_vertex_properties, widen_indices, IndexBuffer,
    VertexAttribute,
};

const UP: [f32; 3] = [0.0, 1.0, 0.0];
const ZERO_UV: [f32; 2] = [0.0, 0.0];

#[test]
fn split_positions_only() {
    let props = vec![1.0f32, 2.0, 3.0, 4.0, 5.0, 6.0];
    let (pos, normals, uvs) = split_vertex_properties(&props, 3, UP);
    assert_eq!(pos, vec![[1.0, 2.0, 3.0], [4.0, 5.0, 6.0]]);
    assert_eq!(normals, vec![UP, UP]);
    assert!(uvs.is_empty());
}

#[test]
fn split_positions_normals_uvs() {
    let props: Vec<f32> = (0..16).map(|i| i as f32).collect();
    let (pos, normals, uvs) = split_vertex_properties(&props, 8, UP);
    assert_eq!(pos, vec![[0.0, 1.0, 2.0], [8.0, 9.0, 10.0]]);
    assert_eq!(normals, vec![[3.0, 4.0, 5.0], [11.0, 12.0, 13.0]]);
    assert_eq!(uvs, vec![[6.0, 7.0], [14.0, 15.0]]);
}

#[test]
fn split_ignores_a_trailing_partial_vertex() {
    let props: Vec<f32> = (0..14).map(|i| i as f32).collect();
    let (pos, normals, uvs) = split_vertex_properties(&props, 6, UP);
    assert_eq!(pos, vec![[0.0, 1.0, 2.0], [6.0, 7.0, 8.0]]);
    assert_eq!(normals, vec![[3.0, 4.0, 5.0], [9.0, 10.0, 11.0]]);
    assert!(uvs.is_empty());
}

#[test]
fn split_with_seven_properties_has_no_uvs() {
    let props: Vec<f32> = (0..7).map(|i| i as f32).collect();
    let (pos, normals, uvs) = split_vertex_properties(&props, 7, UP);
    assert_eq!(pos, vec![[0.0, 1.0, 2.0]]);
    assert_eq!(normals, vec![[3.0, 4.0, 5.0]]);
    assert!(uvs.is_empty());
}

#[test]
fn interleave_positions_only() {
    let positions = vec![[1.0f32, 2.0, 3.0], [4.0, 5.0, 6.0]];
    let (np, props) = interleave_attributes(&positions, &VertexAttribute::Missing, &VertexAttribute::Missing, UP, ZERO_UV);
    assert_eq!(np, 3);
    assert_eq!(props, vec![1.0, 2.0, 3.0, 4.0, 5.0, 6.0]);
}

#[test]
fn interleave_with_short_normals_uses_the_default() {
    let positions = vec![[1.0f32, 2.0, 3.0], [4.0, 5.0, 6.0]];
    let normals = VertexAttribute::Values(vec![[0.0f32, 0.0, 1.0]]);
    let uvs = VertexAttribute::Values(vec![[0.5f32, 0.25], [0.75, 1.0]]);
    let (np, props) = interleave_attributes(&positions, &normals, &uvs, UP, ZERO_UV);
    assert_eq!(np, 8);
    assert_eq!(
        props,
        vec![1.0, 2.0, 3.0, 0.0, 0.0, 1.0, 0.5, 0.25, 4.0, 5.0, 6.0, 0.0, 1.0, 0.0, 0.75, 1.0]
    );
}

#[test]
fn interleave_with_normals_in_another_format() {
    let positions = vec![[1.0f32, 2.0, 3.0]];
    let (np, props) = interleave_attributes(&positions, &VertexAttribute::OtherFormat, &VertexAttribute::Missing, UP, ZERO_UV);
    assert_eq!(np, 6);
    assert_eq!(props, vec![1.0, 2.0, 3.0, 0.0, 1.0, 0.0]);
}

#[test]
fn interleave_with_uvs_in_another_format_and_no_normals() {
    // the layout announces five properties, but neither normals nor
    // coordinates are written for such a mesh
    let positions = vec![[1.0f32, 2.0, 3.0]];
    let (np, props) = interleave_attributes(&positions, &VertexAttribute::Missing, &VertexAttribute::OtherFormat, UP, ZERO_UV);
    assert_eq!(np, 5);
    assert_eq!(props, vec![1.0, 2.0, 3.0]);
}

#[test]
fn interleave_both_in_other_formats() {
    let positions = vec![[1.0f32, 2.0, 3.0]];
    let (np, props) = interleave_attributes(&positions, &VertexAttribute::OtherFormat, &VertexAttribute::OtherFormat, UP, ZERO_UV);
    assert_eq!(np, 8);
    assert_eq!(props, vec![1.0, 2.0, 3.0, 0.0, 1.0, 0.0, 0.0, 0.0]);
}

#[test]
fn interleave_then_split_round_trip() {
    let positions = vec![[1.0f32, 2.0, 3.0], [4.0, 5.0, 6.0], [7.0, 8.0, 9.0]];
    let normals = vec![[0.0f32, 0.0, 1.0], [0.0, 1.0, 0.0], [1.0, 0.0, 0.0]];
    let uvs = vec![[0.1f32, 0.2], [0.3, 0.4], [0.5, 0.6]];
    let (np, props) = interleave_attributes(
        &positions,
        &VertexAttribute::Values(normals.clone()),
        &VertexAttribute::Values(uvs.clone()),
        UP,
        ZERO_UV,
    );
    let (p2, n2, u2) = split_vertex_properties(&props, np as usize, UP);
    assert_eq!(p2, positions);
    assert_eq!(n2, normals);
    assert_eq!(u2, uvs);
}

#[test]
fn widen_keeps_values() {
    assert_eq!(widen_indices(&vec![0u16, 1, 65535]), vec![0u32, 1, 65535]);
    assert_eq!(index_buffer_values(&IndexBuffer::U16(vec![3, 2, 1])), vec![3, 2, 1]);
    assert_eq!(index_buffer_values(&IndexBuffer::U32(vec![70000, 2])), vec![70000, 2]);
}

#[test]
fn split_solid_vertices() {
    let verts: Vec<f32> = (0..12).map(|i| i as f32).collect();
    let (pos, normals) = split_positions_normals(&verts, 6);
    assert_eq!(pos, vec![[0.0, 1.0, 2.0], [6.0, 7.0, 8.0]]);
    assert_eq!(normals, Some(vec![[3.0, 4.0, 5.0], [9.0, 10.0, 11.0]]));
    let (pos3, none) = split_positions_normals(&verts, 3);
    assert_eq!(pos3.len(), 4);
    assert_eq!(pos3[3], [9.0, 10.0, 11.0]);
    assert!(none.is_none());
}

#[test]
fn flatten_and_sequence() {
    let positions = vec![[1.0f32, 2.0, 3.0], [4.0, 5.0, 6.0]];
    assert_eq!(flatten_positions(&positions), vec![1.0, 2.0, 3.0, 4.0, 5.0, 6.0]);
    assert_eq!(sequential_indices(4), vec![0, 1, 2, 3]);
    assert!(sequential_indices(0).is_empty());
}

#[test]
fn solid_buffers_need_positions() {
    let positions = VertexAttribute::Values(vec![[1.0f32, 2.0, 3.0], [4.0, 5.0, 6.0], [7.0, 8.0, 9.0]]);
    let (flat, idx) = solid_buffers(&positions, &None).unwrap();
    assert_eq!(flat, vec![1.0, 2.0, 3.0, 4.0, 5.0, 6.0, 7.0, 8.0, 9.0]);
    assert_eq!(idx, vec![0, 1, 2]);
    let (_, idx16) = solid_buffers(&positions, &Some(IndexBuffer::U16(vec![2, 1, 0]))).unwrap();
    assert_eq!(idx16, vec![2, 1, 0]);
    assert!(solid_buffers::<f32>(&VertexAttribute::OtherFormat, &None).is_none());
    assert!(solid_buffers::<f32>(&VertexAttribute::Missing, &None).is_none());
}

#[test]
fn interleaved_mesh_needs_positions_and_indices() {
    let positions = VertexAttribute::Values(vec![[1.0f32, 2.0, 3.0]]);
    let missing: VertexAttribute<[f32; 3]> = VertexAttribute::Missing;
    let no_uv: VertexAttribute<[f32; 2]> = VertexAttribute::Missing;
    assert!(interleaved_mesh(&positions, &missing, &no_uv, &None, UP, ZERO_UV).is_none());
    assert!(interleaved_mesh(&VertexAttribute::OtherFormat, &missing, &no_uv, &Some(IndexBuffer::U32(vec![0])), UP, ZERO_UV).is_none());
    let (np, props, idx) =
        interleaved_mesh(&positions, &missing, &no_uv, &Some(IndexBuffer::U16(vec![0, 0, 0])), UP, ZERO_UV).unwrap();
    assert_eq!((np, props, idx), (3, vec![1.0, 2.0, 3.0], vec![0, 0, 0]));
}

#[test]
fn split_reads_stay_inside() {
    assert!(!can_split_properties(6, 0));
    assert!(can_split_properties(7, 3));
    assert!(can_split_properties(1, 2));
    // two properties per vertex: the last position would read one past the end
    assert!(!can_split_properties(4, 2));
    assert!(can_split_properties(5, 2));
    assert!(!can_split_properties(2, 1));
    assert!(!can_split_properties(3, 1));
    assert!(can_split_properties(0, 1));
}

#[test]
fn split_then_interleave_gives_back_the_properties() {
    let props8: Vec<f32> = (0..24).map(|i| i as f32).collect();
    let (pos, normals, uvs) = split_vertex_properties(&props8, 8, UP);
    let (np, back) = interleave_attributes(
        &pos,
        &VertexAttribute::Values(normals),
        &VertexAttribute::Values(uvs),
        UP,
        ZERO_UV,
    );
    assert_eq!(np, 8);
    assert_eq!(back, props8);

    let props6: Vec<f32> = (0..12).map(|i| i as f32).collect();
    let (pos, normals, _) = split_vertex_properties(&props6, 6, UP);
    let (np, back) = interleave_attributes(&pos, &VertexAttribute::Values(normals), &VertexAttribute::Missing, UP, ZERO_UV);
    assert_eq!(np, 6);
    assert_eq!(back, props6);
}
