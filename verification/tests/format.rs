use mesh_puzzle::geometry::format::{parse_line, Entry};
use mesh_puzzle::geometry::mesh::Triangle;
use mesh_puzzle::geometry::{GeometryError, PuzzleData};

fn chars(s: &str) -> Vec<char> {
    s.chars().collect()
}

fn load(text: &[&str]) -> Result<PuzzleData, GeometryError> {
    let lines: Vec<Vec<char>> = text.iter().map(|l| chars(l)).collect();
    PuzzleData::from_lines(&lines)
}

fn error_of(text: &[&str]) -> Option<GeometryError> {
    load(text).err()
}

#[test]
fn empty_description_is_an_empty_mesh() {
    let data = load(&[]).unwrap();
    assert_eq!(data.num_vertices(), 0);
    assert_eq!(data.num_triangles(), 0);
    assert_eq!(data.num_colors(), 0);
}

#[test]
fn triangle_count_is_the_number_of_four_token_lines() {
    let data = load(&[
        "0 0", "10 20 30", "1 0", "0 1", "0 1 2 0", "1 1", "2 1 3 1", "  3   0\t1   0  ", "40 50 60",
    ])
    .unwrap();
    assert_eq!(data.num_triangles(), 3);
    assert_eq!(data.num_vertices(), 4);
    assert_eq!(data.num_colors(), 2);
    assert_eq!(data.triangle(1), Triangle { v0: 2, v1: 1, v2: 3, color: 1 });
    assert_eq!(data.triangle(2), Triangle { v0: 3, v1: 0, v2: 1, color: 0 });
}

#[test]
fn vertex_tokens_are_kept_as_written() {
    let data = load(&["-1.5e3 +.25", "inf NaN"]).unwrap();
    let (x, y) = data.vertex_tokens(0);
    assert_eq!(x.iter().collect::<String>(), "-1.5e3");
    assert_eq!(y.iter().collect::<String>(), "+.25");
    let (x, y) = data.vertex_tokens(1);
    assert_eq!(x.iter().collect::<String>(), "inf");
    assert_eq!(y.iter().collect::<String>(), "NaN");
}

#[test]
fn a_line_of_five_tokens_is_a_parse_failure() {
    assert_eq!(error_of(&["0 0", "1 0", "0 1", "255 0 0", "0 1 2 0 7"]), Some(GeometryError::ParseFailure));
}

#[test]
fn a_line_of_one_token_is_a_parse_failure() {
    assert_eq!(error_of(&["0 0", "1"]), Some(GeometryError::ParseFailure));
}

#[test]
fn an_empty_line_is_passed_over() {
    let data = load(&["0 0", "", "1 0"]).unwrap();
    assert_eq!(data.num_vertices(), 2);
    assert_eq!(data.num_triangles(), 0);
    assert_eq!(data.vertex_tokens(1).0.iter().collect::<String>(), "1");
    let data = load(&["", "0 0", "", "", "1 0", "0 1", "1 2 3", "", "2 1 0 0", ""]).unwrap();
    assert_eq!(data.num_vertices(), 3);
    assert_eq!(data.num_colors(), 1);
    assert_eq!(data.num_triangles(), 1);
    assert_eq!(data.triangles_with_edge(&(0, 2)), Some(&vec![0]));
    let data = load(&["", "", ""]).unwrap();
    assert_eq!(data.num_vertices(), 0);
    // An empty line does not hide the failure of a later line.
    assert_eq!(error_of(&["0 0", "", "1"]), Some(GeometryError::ParseFailure));
    assert_eq!(error_of(&["", "0 x"]), Some(GeometryError::InvalidVertex));
}

#[test]
fn a_line_of_whitespace_alone_is_a_parse_failure() {
    assert_eq!(error_of(&["   \t "]), Some(GeometryError::ParseFailure));
    assert_eq!(error_of(&["0 0", " ", "1 0"]), Some(GeometryError::ParseFailure));
    assert_eq!(error_of(&["0 0", "\u{3000}", "1 0"]), Some(GeometryError::ParseFailure));
}

#[test]
fn a_bad_coordinate_is_an_invalid_vertex() {
    assert_eq!(error_of(&["0 x"]), Some(GeometryError::InvalidVertex));
    assert_eq!(error_of(&["1e 0"]), Some(GeometryError::InvalidVertex));
    assert_eq!(error_of(&["0 0", ". 1"]), Some(GeometryError::InvalidVertex));
}

#[test]
fn a_bad_channel_is_an_invalid_color() {
    assert_eq!(error_of(&["256 0 0"]), Some(GeometryError::InvalidColor));
    assert_eq!(error_of(&["0 -1 0"]), Some(GeometryError::InvalidColor));
    assert_eq!(error_of(&["0 0 1.0"]), Some(GeometryError::InvalidColor));
    assert_eq!(error_of(&["a b c"]), Some(GeometryError::InvalidColor));
    assert!(load(&["0 255 +7"]).is_ok());
}

#[test]
fn a_bad_triangle_is_an_invalid_triangle() {
    let head = ["0 0", "1 0", "0 1", "9 9 9"];
    let with = |line: &'static str| {
        let mut text = head.to_vec();
        text.push(line);
        error_of(&text)
    };
    assert_eq!(with("0 1 2 0"), None);
    assert_eq!(with("0 1 3 0"), Some(GeometryError::InvalidTriangle));
    assert_eq!(with("0 1 1 0"), Some(GeometryError::InvalidTriangle));
    assert_eq!(with("2 1 2 0"), Some(GeometryError::InvalidTriangle));
    assert_eq!(with("0 1 x 0"), Some(GeometryError::InvalidTriangle));
    assert_eq!(with("0 1 -2 0"), Some(GeometryError::InvalidTriangle));
    assert_eq!(with("0 1 2 x"), Some(GeometryError::InvalidTriangle));
    assert_eq!(with("0 1 2 4294967296"), Some(GeometryError::InvalidTriangle));
}

#[test]
fn a_triangle_before_its_vertices_is_an_invalid_triangle() {
    assert_eq!(error_of(&["0 0", "1 0", "0 1 2 0", "0 1"]), Some(GeometryError::InvalidTriangle));
}

#[test]
fn a_color_index_may_be_one_past_the_palette() {
    // The palette may follow the triangles that use it: an index is accepted
    // while it is at most the number of entries read so far.
    let data = load(&["0 0", "1 0", "0 1", "0 1 2 0", "10 20 30"]).unwrap();
    assert_eq!(data.color(data.triangle(0).color), Some((10, 20, 30)));
    let data = load(&["0 0", "1 0", "0 1", "10 20 30", "0 1 2 1"]).unwrap();
    assert_eq!(data.triangle(0).color, 1);
    assert_eq!(data.color(1), None);
    assert_eq!(error_of(&["0 0", "1 0", "0 1", "10 20 30", "0 1 2 2"]), Some(GeometryError::InvalidTriangle));
}

#[test]
fn the_first_line_that_fails_decides_the_error() {
    assert_eq!(error_of(&["0 0", "0 x", "1 2 3 4 5"]), Some(GeometryError::InvalidVertex));
    assert_eq!(error_of(&["0 0", "1 2 3 4 5", "0 x"]), Some(GeometryError::ParseFailure));
    assert_eq!(error_of(&["300 0 0", "0 0 0 0"]), Some(GeometryError::InvalidColor));
    assert_eq!(error_of(&["0 0 0 0", "300 0 0"]), Some(GeometryError::InvalidTriangle));
}

#[test]
fn parse_line_reads_each_kind() {
    match parse_line(&chars(" 1.0\t-2 "), 0, 0) {
        Ok(Entry::Vertex(x, y)) => {
            assert_eq!(x, chars("1.0"));
            assert_eq!(y, chars("-2"));
        }
        other => panic!("{:?}", other),
    }
    match parse_line(&chars("1 2 3"), 0, 0) {
        Ok(Entry::Color(1, 2, 3)) => {}
        other => panic!("{:?}", other),
    }
    match parse_line(&chars("4 0 2 1"), 5, 1) {
        Ok(Entry::Triangle(t)) => assert_eq!(t, Triangle { v0: 4, v1: 0, v2: 2, color: 1 }),
        other => panic!("{:?}", other),
    }
    assert_eq!(parse_line(&chars("4 0 2 1"), 4, 1).err(), Some(GeometryError::InvalidTriangle));
    match parse_line(&chars(""), 4, 1) {
        Ok(Entry::Blank) => {}
        other => panic!("{:?}", other),
    }
    assert_eq!(parse_line(&chars(" "), 4, 1).err(), Some(GeometryError::ParseFailure));
}

#[test]
fn adjacency_of_two_triangles_with_a_shared_edge() {
    let data = load(&["0 0", "1 0", "0 1", "1 1", "0 0 0", "2 0 1 0", "3 2 1 0"]).unwrap();
    assert_eq!(data.get_edges_for_triangle(0), vec![(0, 1), (1, 2), (0, 2)]);
    assert_eq!(data.get_edges_for_triangle(1), vec![(1, 2), (2, 3), (1, 3)]);
    assert_eq!(data.triangle_edges(1), [(1, 2), (2, 3), (1, 3)]);
    assert_eq!(data.triangles_with_edge(&(1, 2)), Some(&vec![0, 1]));
    assert_eq!(data.triangles_with_edge(&(0, 1)), Some(&vec![0]));
    assert_eq!(data.triangles_with_edge(&(2, 3)), Some(&vec![1]));
    assert_eq!(data.triangles_with_edge(&(0, 3)), None);
    assert_eq!(data.triangles_with_edge(&(2, 1)), None);
    assert_eq!(data.num_edges_from_vertex(0), 2);
    assert_eq!(data.num_edges_from_vertex(1), 3);
    assert_eq!(data.num_edges_from_vertex(2), 3);
    assert_eq!(data.num_edges_from_vertex(3), 2);
    assert_eq!(data.num_edges_from_vertex(4), 0);
}

#[test]
fn an_edge_may_have_more_than_two_triangles() {
    let data = load(&["0 0", "1 0", "0 1", "1 1", "2 2", "0 1 2 0", "0 1 3 0", "1 0 4 0", "0 1 2 0"]).unwrap();
    assert_eq!(data.triangles_with_edge(&(0, 1)), Some(&vec![0, 1, 2, 3]));
    assert_eq!(data.triangles_with_edge(&(1, 2)), Some(&vec![0, 3]));
    assert_eq!(data.num_edges_from_vertex(0), 4);
    assert_eq!(data.num_edges_from_vertex(1), 4);
}
