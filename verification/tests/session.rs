use mesh_puzzle::geometry::PuzzleData;
use mesh_puzzle::puzzle_state::PuzzleState;

fn load(text: &[&str]) -> PuzzleData {
    let lines: Vec<Vec<char>> = text.iter().map(|l| l.chars().collect()).collect();
    PuzzleData::from_lines(&lines).unwrap()
}

fn single_triangle() -> PuzzleData {
    load(&["0 0", "1 0", "0 1", "255 0 0", "0 1 2 0"])
}

fn two_triangles() -> PuzzleData {
    load(&["0 0", "1 0", "0 1", "1 1", "255 0 0", "0 1 2 0", "1 2 3 0"])
}

/// What can be seen of a state from outside.
fn snapshot(state: &PuzzleState, data: &PuzzleData) -> (Vec<(u32, u32)>, Vec<usize>, Vec<u32>, Vec<(usize, usize, bool, bool)>) {
    let per_vertex = (0..data.num_vertices() as u32 + 2)
        .map(|v| {
            (
                state.get_permanent_edges_for_vertex(v),
                state.get_non_permanent_edges_for_vertex(v),
                state.is_permanent_vertex(v),
                state.should_be_interactable(data, v),
            )
        })
        .collect();
    (
        state.get_connected_edges().clone(),
        state.get_unlocked_triangles().clone(),
        state.get_triangle_requirements().clone(),
        per_vertex,
    )
}

/// Whether a triangle is unlocked exactly when its three edges are connected.
fn unlocked_matches_connected(state: &PuzzleState, data: &PuzzleData) -> bool {
    (0..data.num_triangles()).all(|t| {
        let all = data.get_edges_for_triangle(t as u32).iter().all(|e| state.get_connected_edges().contains(e));
        let missing = data.get_edges_for_triangle(t as u32).iter().filter(|e| !state.get_connected_edges().contains(e)).count();
        state.get_unlocked_triangles().contains(&t) == all && state.get_triangle_requirements()[t] as usize == missing
    })
}

#[test]
fn a_new_state_asks_for_three_edges_of_each_triangle() {
    let data = two_triangles();
    let state = PuzzleState::from_data(&data);
    assert_eq!(state.get_triangle_requirements(), &vec![3, 3]);
    assert!(state.get_connected_edges().is_empty());
    assert!(state.get_unlocked_triangles().is_empty());
    assert!(!state.is_finished());
    for v in 0..4 {
        assert_eq!(state.get_permanent_edges_for_vertex(v), 0);
        assert_eq!(state.get_non_permanent_edges_for_vertex(v), 0);
        assert!(!state.is_permanent_vertex(v));
        assert!(state.should_be_interactable(&data, v));
        assert!(!state.is_permanent_and_complete(v));
    }
}

#[test]
fn a_puzzle_without_triangles_is_finished() {
    let data = load(&["0 0", "1 1"]);
    let state = PuzzleState::from_data(&data);
    assert!(state.is_finished());
    assert!(state.is_permanent_vertex(0));
    assert!(!state.should_be_interactable(&data, 0));
}

#[test]
fn single_triangle_unlocks_with_its_third_edge() {
    let data = single_triangle();
    let mut state = PuzzleState::from_data(&data);
    assert!(!state.is_finished());
    state.connect_edge(&data, &(0, 1));
    state.connect_edge(&data, &(1, 2));
    assert!(!state.is_finished());
    assert!(state.get_unlocked_triangles().is_empty());
    assert_eq!(state.get_triangle_requirements(), &vec![1]);
    assert!(!state.is_permanent_vertex(0));
    state.connect_edge(&data, &(0, 2));
    assert!(state.is_finished());
    assert_eq!(state.get_unlocked_triangles(), &vec![0]);
    assert_eq!(state.get_triangle_requirements(), &vec![0]);
    assert!(state.is_permanent_vertex(0));
    assert!(state.is_permanent_vertex(1));
    assert!(state.is_permanent_vertex(2));
    assert!(!state.is_permanent_vertex(3));
    assert_eq!(state.get_permanent_edges_for_vertex(0), 2);
    assert_eq!(state.get_non_permanent_edges_for_vertex(0), 0);
    assert!(!state.should_be_interactable(&data, 0));
    assert!(state.is_permanent_and_complete(0));
    assert!(state.is_permanent_edge(&data, &(2, 0)));
}

#[test]
fn shared_edge_lowers_both_requirements() {
    let data = two_triangles();
    let mut state = PuzzleState::from_data(&data);
    assert_eq!(state.get_triangle_requirements(), &vec![3, 3]);
    state.connect_edge(&data, &(2, 1));
    assert_eq!(state.get_triangle_requirements(), &vec![2, 2]);
    assert_eq!(state.get_connected_edges(), &vec![(1, 2)]);
}

#[test]
fn connecting_twice_is_connecting_once() {
    let data = two_triangles();
    let mut state = PuzzleState::from_data(&data);
    state.connect_edge(&data, &(0, 1));
    state.connect_edge(&data, &(1, 2));
    let once = snapshot(&state, &data);
    state.connect_edge(&data, &(1, 2));
    assert_eq!(snapshot(&state, &data), once);
    state.connect_edge(&data, &(2, 1));
    assert_eq!(snapshot(&state, &data), once);
    state.connect_edge(&data, &(0, 2));
    let unlocked = snapshot(&state, &data);
    state.connect_edge(&data, &(2, 0));
    assert_eq!(snapshot(&state, &data), unlocked);
}

#[test]
fn connecting_then_disconnecting_restores_the_state() {
    let data = two_triangles();
    let mut state = PuzzleState::from_data(&data);
    state.connect_edge(&data, &(0, 1));
    let before = snapshot(&state, &data);
    state.connect_edge(&data, &(3, 2));
    assert_ne!(snapshot(&state, &data), before);
    state.disconnect_edge(&data, &(2, 3));
    assert_eq!(snapshot(&state, &data), before);
    state.connect_edge(&data, &(1, 2));
    state.disconnect_edge_unless_permanent(&data, &(2, 1));
    assert_eq!(snapshot(&state, &data), before);
}

#[test]
fn triangles_are_unlocked_exactly_when_their_edges_are_connected() {
    let data = two_triangles();
    let mut state = PuzzleState::from_data(&data);
    assert!(unlocked_matches_connected(&state, &data));
    let steps: [(bool, (u32, u32)); 12] = [
        (true, (0, 1)), (true, (1, 2)), (true, (0, 3)), (true, (2, 0)), (true, (3, 1)),
        (false, (1, 2)), (true, (2, 3)), (true, (1, 2)), (false, (0, 3)), (false, (0, 1)),
        (false, (5, 6)), (true, (1, 0)),
    ];
    for (connect, edge) in steps.iter() {
        if *connect {
            state.connect_edge(&data, edge);
        } else {
            state.disconnect_edge(&data, edge);
        }
        assert!(unlocked_matches_connected(&state, &data), "after {:?}", edge);
        assert_eq!(state.is_finished(), state.get_unlocked_triangles().len() == data.num_triangles());
    }
    assert!(state.is_finished());
    assert_eq!(state.get_unlocked_triangles(), &vec![1, 0]);
}

#[test]
fn vertices_become_permanent_when_all_their_edges_are() {
    let data = two_triangles();
    let mut state = PuzzleState::from_data(&data);
    state.connect_edge(&data, &(0, 1));
    state.connect_edge(&data, &(1, 2));
    state.connect_edge(&data, &(0, 2));
    assert_eq!(state.get_unlocked_triangles(), &vec![0]);
    assert!(!state.is_finished());
    assert!(state.is_permanent_vertex(0));
    assert!(!state.is_permanent_vertex(1));
    assert!(!state.is_permanent_vertex(2));
    assert!(!state.is_permanent_vertex(3));
    assert_eq!(state.get_permanent_edges_for_vertex(1), 2);
    assert_eq!(state.get_non_permanent_edges_for_vertex(1), 0);
    assert!(!state.should_be_interactable(&data, 0));
    assert!(state.should_be_interactable(&data, 1));
    state.connect_edge(&data, &(1, 3));
    assert_eq!(state.get_non_permanent_edges_for_vertex(1), 1);
    assert_eq!(state.get_non_permanent_edges_for_vertex(3), 1);
    state.connect_edge(&data, &(2, 3));
    assert!(state.is_finished());
    for v in 0..4 {
        assert!(state.is_permanent_vertex(v));
        assert_eq!(state.get_non_permanent_edges_for_vertex(v), 0);
        assert!(!state.should_be_interactable(&data, v));
    }
}

#[test]
fn an_edge_outside_the_mesh_can_be_connected_and_let_go() {
    let data = two_triangles();
    let mut state = PuzzleState::from_data(&data);
    state.connect_edge(&data, &(3, 0));
    assert_eq!(state.get_connected_edges(), &vec![(0, 3)]);
    assert_eq!(state.get_triangle_requirements(), &vec![3, 3]);
    assert_eq!(state.get_non_permanent_edges_for_vertex(0), 1);
    assert_eq!(state.get_non_permanent_edges_for_vertex(3), 1);
    state.connect_edge(&data, &(1, 1));
    assert_eq!(state.get_connected_edges(), &vec![(0, 3), (1, 1)]);
    assert_eq!(state.get_non_permanent_edges_for_vertex(1), 1);
    state.disconnect_from_vertex(&data, 3);
    assert_eq!(state.get_connected_edges(), &vec![(1, 1)]);
    state.disconnect_from_vertex(&data, 1);
    assert!(state.get_connected_edges().is_empty());
}

#[test]
fn an_edge_to_an_unknown_vertex_changes_nothing() {
    let data = two_triangles();
    let mut state = PuzzleState::from_data(&data);
    state.connect_edge(&data, &(0, 1));
    let before = snapshot(&state, &data);
    state.connect_edge(&data, &(0, 4));
    state.connect_edge(&data, &(7, 1));
    state.connect_edge(&data, &(u32::MAX, u32::MAX));
    state.disconnect_edge(&data, &(0, 4));
    state.disconnect_edge(&data, &(2, 3));
    state.disconnect_edge_unless_permanent(&data, &(9, 9));
    state.disconnect_from_vertex(&data, 4);
    state.disconnect_from_vertex(&data, u32::MAX);
    assert_eq!(snapshot(&state, &data), before);
    assert_eq!(state.get_permanent_edges_for_vertex(99), 0);
    assert_eq!(state.get_non_permanent_edges_for_vertex(99), 0);
    assert!(!state.should_be_interactable(&data, 99));
    assert!(!state.is_permanent_and_complete(99));
}

#[test]
fn letting_go_at_a_vertex_keeps_its_permanent_edges() {
    let data = two_triangles();
    let mut state = PuzzleState::from_data(&data);
    for edge in [(0, 1), (1, 2), (0, 2), (1, 3), (0, 3)].iter() {
        state.connect_edge(&data, edge);
    }
    assert_eq!(state.get_triangle_requirements(), &vec![0, 1]);
    state.disconnect_from_vertex(&data, 1);
    assert_eq!(state.get_connected_edges(), &vec![(0, 1), (1, 2), (0, 2), (0, 3)]);
    assert_eq!(state.get_triangle_requirements(), &vec![0, 2]);
    assert_eq!(state.get_unlocked_triangles(), &vec![0]);
    state.disconnect_from_vertex(&data, 0);
    assert_eq!(state.get_connected_edges(), &vec![(0, 1), (1, 2), (0, 2)]);
    assert!(state.is_permanent_and_complete(0));
    state.disconnect_from_vertex(&data, 0);
    assert_eq!(state.get_connected_edges(), &vec![(0, 1), (1, 2), (0, 2)]);
    assert_eq!(state.get_unlocked_triangles(), &vec![0]);
}

#[test]
fn disconnecting_a_permanent_edge_locks_its_triangle_again() {
    let data = two_triangles();
    let mut state = PuzzleState::from_data(&data);
    for edge in [(0, 1), (1, 2), (0, 2)].iter() {
        state.connect_edge(&data, edge);
    }
    state.disconnect_edge(&data, &(2, 1));
    assert_eq!(state.get_connected_edges(), &vec![(0, 1), (0, 2)]);
    assert!(state.get_unlocked_triangles().is_empty());
    assert_eq!(state.get_triangle_requirements(), &vec![1, 3]);
    // What was permanent stays permanent.
    assert!(state.is_permanent_edge(&data, &(1, 2)));
    assert!(state.is_permanent_vertex(0));
    assert_eq!(state.get_permanent_edges_for_vertex(1), 2);
    assert_eq!(state.get_non_permanent_edges_for_vertex(1), 0);
    state.connect_edge(&data, &(1, 2));
    assert_eq!(state.get_unlocked_triangles(), &vec![0]);
    assert_eq!(state.get_connected_edges(), &vec![(0, 1), (0, 2), (1, 2)]);
}

#[test]
fn a_permanent_edge_is_kept_where_permanent_edges_are_kept() {
    let data = two_triangles();
    let mut state = PuzzleState::from_data(&data);
    for edge in [(0, 1), (1, 2), (0, 2), (2, 3)].iter() {
        state.connect_edge(&data, edge);
    }
    let before = snapshot(&state, &data);
    state.disconnect_edge_unless_permanent(&data, &(2, 1));
    state.disconnect_edge_unless_permanent(&data, &(0, 1));
    assert_eq!(snapshot(&state, &data), before);
    state.disconnect_edge_unless_permanent(&data, &(3, 2));
    assert_eq!(state.get_connected_edges(), &vec![(0, 1), (1, 2), (0, 2)]);
    assert_eq!(state.get_triangle_requirements(), &vec![0, 2]);
}

#[test]
fn one_edge_can_unlock_several_triangles() {
    let data = load(&["0 0", "1 0", "0 1", "1 1", "0 1 2 0", "0 1 3 0", "1 0 2 0"]);
    let mut state = PuzzleState::from_data(&data);
    for edge in [(0, 2), (1, 2), (0, 3), (1, 3)].iter() {
        state.connect_edge(&data, edge);
    }
    assert_eq!(state.get_triangle_requirements(), &vec![1, 1, 1]);
    state.connect_edge(&data, &(1, 0));
    assert_eq!(state.get_triangle_requirements(), &vec![0, 0, 0]);
    assert_eq!(state.get_unlocked_triangles(), &vec![0, 1, 2]);
    assert!(state.is_finished());
    state.disconnect_edge(&data, &(0, 1));
    assert!(state.get_unlocked_triangles().is_empty());
    assert_eq!(state.get_triangle_requirements(), &vec![1, 1, 1]);
}
