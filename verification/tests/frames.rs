use mesh_puzzle::geometry::graphics::{DynamicGraphicsData, InteractiveFeatures, PointQuad, StaticGraphicsData};
use mesh_puzzle::geometry::PuzzleData;
use mesh_puzzle::puzzle_state::PuzzleState;

fn load(text: &[&str]) -> PuzzleData {
    let lines: Vec<Vec<char>> = text.iter().map(|l| l.chars().collect()).collect();
    PuzzleData::from_lines(&lines).unwrap()
}

fn two_triangles() -> PuzzleData {
    load(&["0 0", "1 0", "0 1", "1 1", "255 0 0", "0 128 7", "2 0 1 1", "1 2 3 0"])
}

#[test]
fn static_data_repeats_a_vertex_for_each_of_its_triangles() {
    let data = two_triangles();
    let frame = data.get_static_graphics_data();
    assert_eq!(frame.num_vertices, 4);
    assert_eq!(frame.corner_vertices, vec![2, 0, 1, 1, 2, 3]);
    assert_eq!(frame.corner_colors, vec![1, 1, 1, 0, 0, 0]);
    assert_eq!(frame.palette, vec![255, 0, 0, 0, 128, 7]);
    let again = StaticGraphicsData::from_data(&data);
    assert_eq!(again.corner_vertices, frame.corner_vertices);
}

#[test]
fn a_marker_has_four_corners_and_two_triangles() {
    let quad = PointQuad::new(5, 8, 3, true);
    assert_eq!(quad.vertex, 5);
    assert!(quad.enlarged);
    assert_eq!(quad.textures, vec![3, 3, 3, 3]);
    assert_eq!(quad.indices, vec![8, 9, 10, 8, 10, 11]);
    let last = PointQuad::new(0, 65532, 0, false);
    assert_eq!(last.indices, vec![65532, 65533, 65534, 65532, 65534, 65535]);
}

#[test]
fn the_pointer_picks_the_first_near_vertex_that_is_interactable() {
    let data = two_triangles();
    let mut state = PuzzleState::from_data(&data);
    assert_eq!(data.get_vertex_near(&state, &vec![false, true, true, false]), Some(1));
    assert_eq!(data.get_vertex_near(&state, &vec![false, false, false, false]), None);
    assert_eq!(data.get_vertex_near(&state, &vec![]), None);
    assert_eq!(data.get_vertex_near(&state, &vec![false, false, false, false, true]), None);
    for edge in [(0, 1), (1, 2), (0, 2)].iter() {
        state.connect_edge(&data, edge);
    }
    // Vertex 0 is done; vertices 1 and 2 still lack an edge.
    assert_eq!(data.get_vertex_near(&state, &vec![true, false, true, true]), Some(2));
    assert_eq!(data.get_vertex_near(&state, &vec![true, false, false, false]), None);
    state.connect_edge(&data, &(0, 3));
    assert_eq!(data.get_vertex_near(&state, &vec![true, false, true, true]), Some(0));
}

#[test]
fn interactive_features_of_a_frame() {
    let data = two_triangles();
    let state = PuzzleState::from_data(&data);
    let near = Some(vec![false, false, true, true]);
    let f = InteractiveFeatures::from_data_and_interact_info(&data, &state, &Some(1), &near);
    assert_eq!(f.selected_vertices, vec![1, 2]);
    assert_eq!(f.active_edge, Some(1));
    let f = InteractiveFeatures::from_data_and_interact_info(&data, &state, &Some(2), &near);
    assert_eq!(f.selected_vertices, vec![2]);
    assert_eq!(f.active_edge, Some(2));
    let f = InteractiveFeatures::from_data_and_interact_info(&data, &state, &None, &near);
    assert_eq!(f.selected_vertices, vec![2]);
    assert_eq!(f.active_edge, None);
    let f = InteractiveFeatures::from_data_and_interact_info(&data, &state, &Some(3), &None);
    assert_eq!(f.selected_vertices, vec![3]);
    assert_eq!(f.active_edge, None);
    let f = InteractiveFeatures::from_data_and_interact_info(&data, &state, &None, &None);
    assert!(f.selected_vertices.is_empty());
    assert_eq!(f.active_edge, None);
    let f = InteractiveFeatures::from_data_and_interact_info(&data, &state, &Some(9), &Some(vec![false; 4]));
    assert_eq!(f.selected_vertices, vec![9]);
    assert_eq!(f.active_edge, None);
}

#[test]
fn a_new_frame_marks_every_vertex_with_an_edge() {
    let data = two_triangles();
    let state = PuzzleState::from_data(&data);
    let frame = data.get_dynamic_graphics_data(&state, &Some(3), &Some(vec![false, true, false, false]));
    assert!(frame.triangle_indices.is_empty());
    assert!(frame.line_edges.is_empty());
    assert_eq!(frame.active_edge, Some(3));
    assert_eq!(frame.point_vertices, vec![0, 1, 2, 3]);
    assert_eq!(frame.point_enlarged, vec![false, true, false, true]);
    assert_eq!(frame.point_textures, vec![2, 2, 2, 2, 3, 3, 3, 3, 3, 3, 3, 3, 2, 2, 2, 2]);
    assert_eq!(
        frame.point_indices,
        vec![0, 1, 2, 0, 2, 3, 4, 5, 6, 4, 6, 7, 8, 9, 10, 8, 10, 11, 12, 13, 14, 12, 14, 15]
    );
}

#[test]
fn a_frame_shows_lines_unlocked_triangles_and_the_markers_left() {
    let data = two_triangles();
    let mut state = PuzzleState::from_data(&data);
    for edge in [(2, 3), (3, 1), (1, 2), (0, 3)].iter() {
        state.connect_edge(&data, edge);
    }
    let frame = data.get_dynamic_graphics_data(&state, &None, &None);
    assert_eq!(frame.line_edges, vec![(2, 3), (1, 3), (1, 2), (0, 3)]);
    assert_eq!(frame.triangle_indices, vec![3, 4, 5]);
    assert_eq!(frame.active_edge, None);
    // Vertex 3 has all its mesh edges permanent, but one loose connection.
    assert_eq!(frame.point_vertices, vec![0, 1, 2, 3]);
    assert_eq!(frame.point_enlarged, vec![false, false, false, false]);
    assert_eq!(frame.point_textures, vec![2, 2, 2, 2, 1, 1, 1, 1, 1, 1, 1, 1, 0, 0, 0, 0]);
    state.disconnect_from_vertex(&data, 3);
    let interactive = InteractiveFeatures::from_data_and_interact_info(&data, &state, &Some(2), &None);
    let frame = DynamicGraphicsData::from_data_and_state(&data, &state, &interactive);
    assert_eq!(frame.line_edges, vec![(2, 3), (1, 3), (1, 2)]);
    assert_eq!(frame.point_vertices, vec![0, 1, 2]);
    assert_eq!(frame.point_enlarged, vec![false, false, true]);
    assert_eq!(frame.point_indices, vec![0, 1, 2, 0, 2, 3, 4, 5, 6, 4, 6, 7, 8, 9, 10, 8, 10, 11]);
    state.connect_edge(&data, &(0, 1));
    state.connect_edge(&data, &(0, 2));
    let frame = data.get_dynamic_graphics_data(&state, &None, &None);
    assert_eq!(frame.triangle_indices, vec![3, 4, 5, 0, 1, 2]);
    assert!(frame.point_vertices.is_empty());
    assert!(frame.point_indices.is_empty());
    assert!(state.is_finished());
}

/// A fan of triangles round vertex 0 that touches each of `vertices` vertices.
fn fan(vertices: usize) -> PuzzleData {
    let mut text: Vec<String> = (0..vertices).map(|i| format!("{} 0", i)).collect();
    for i in 1..vertices - 1 {
        text.push(format!("0 {} {} 0", i, i + 1));
    }
    let lines: Vec<Vec<char>> = text.iter().map(|l| l.chars().collect()).collect();
    PuzzleData::from_lines(&lines).unwrap()
}

/// `triangles` triangles on the same three vertices, and `spare` vertices
/// that no triangle uses.
fn stack(triangles: usize, spare: usize) -> PuzzleData {
    let mut text: Vec<String> = (0..3 + spare).map(|i| format!("{} 1", i)).collect();
    for _ in 0..triangles {
        text.push(String::from("0 1 2 0"));
    }
    let lines: Vec<Vec<char>> = text.iter().map(|l| l.chars().collect()).collect();
    PuzzleData::from_lines(&lines).unwrap()
}

#[test]
fn markers_may_fill_the_sixteen_bits_and_no_more() {
    let data = fan(16384);
    let state = PuzzleState::from_data(&data);
    assert!(DynamicGraphicsData::can_show(&data, &state));
    let frame = data.get_dynamic_graphics_data(&state, &None, &None);
    assert_eq!(frame.point_vertices.len(), 16384);
    assert_eq!(frame.point_indices.len(), 6 * 16384);
    assert_eq!(&frame.point_indices[6 * 16383..], &[65532, 65533, 65534, 65532, 65534, 65535]);
    assert_eq!(frame.point_textures[0], 16383);
    assert_eq!(frame.point_textures[4], 2);
    let data = fan(16385);
    let state = PuzzleState::from_data(&data);
    assert!(!DynamicGraphicsData::can_show(&data, &state));
}

#[test]
fn vertices_without_markers_do_not_count_against_the_sixteen_bits() {
    let data = stack(1, 30000);
    let mut state = PuzzleState::from_data(&data);
    assert!(DynamicGraphicsData::can_show(&data, &state));
    let frame = data.get_dynamic_graphics_data(&state, &Some(20000), &None);
    assert_eq!(frame.point_vertices, vec![0, 1, 2]);
    assert_eq!(frame.point_enlarged, vec![false, false, false]);
    state.connect_edge(&data, &(29999, 30002));
    let frame = data.get_dynamic_graphics_data(&state, &Some(30002), &Some(vec![]));
    assert_eq!(frame.line_edges, vec![(29999, 30002)]);
    assert_eq!(frame.active_edge, Some(30002));
    assert_eq!(frame.point_vertices, vec![0, 1, 2, 29999, 30002]);
    assert_eq!(frame.point_enlarged, vec![false, false, false, false, true]);
    assert_eq!(&frame.point_textures[12..], &[0, 0, 0, 0, 0, 0, 0, 0]);
    assert_eq!(&frame.point_indices[24..], &[16, 17, 18, 16, 18, 19]);
}

#[test]
fn unlocked_triangles_may_fill_the_sixteen_bits_and_no_more() {
    let data = stack(21845, 0);
    let mut state = PuzzleState::from_data(&data);
    for edge in [(0, 1), (1, 2), (0, 2)].iter() {
        state.connect_edge(&data, edge);
    }
    assert!(state.is_finished());
    assert!(DynamicGraphicsData::can_show(&data, &state));
    let frame = data.get_dynamic_graphics_data(&state, &None, &None);
    assert_eq!(frame.triangle_indices.len(), 3 * 21845);
    assert_eq!(&frame.triangle_indices[..3], &[0, 1, 2]);
    assert_eq!(&frame.triangle_indices[3 * 21844..], &[65532, 65533, 65534]);
    assert!(frame.point_vertices.is_empty());

    let data = stack(21846, 0);
    let mut state = PuzzleState::from_data(&data);
    state.connect_edge(&data, &(0, 1));
    state.connect_edge(&data, &(1, 2));
    // Nothing is unlocked yet, so the frame still fits.
    assert!(DynamicGraphicsData::can_show(&data, &state));
    assert_eq!(data.get_dynamic_graphics_data(&state, &None, &None).point_vertices, vec![0, 1, 2]);
    state.connect_edge(&data, &(0, 2));
    assert!(!DynamicGraphicsData::can_show(&data, &state));
}
