use mesh_puzzle::geometry::number::{is_float_token, parse_bounded};
use mesh_puzzle::geometry::text::split_tokens;
use mesh_puzzle::geometry::{GeometryError, PuzzleData};

fn chars(s: &str) -> Vec<char> {
    s.chars().collect()
}

fn lines(text: &[&str]) -> Vec<Vec<char>> {
    text.iter().map(|l| chars(l)).collect()
}

#[test]
fn float_tokens_agree_with_the_standard_parser() {
    let samples = [
        "0", "1", "-1", "+1", "1.", ".5", "1.5", "-.5", "+.5e3", "1e5", "1E5", "1e+5", "1e-5",
        "1.e5", ".", "", "+", "-", "e5", "1e", "1e+", "1e-", ".e5", "inf", "INF", "Inf", "+inf",
        "-inf", "infinity", "INFINITY", "-Infinity", "infinit", "nan", "NaN", "-nan", "+NAN",
        "nana", "1_000", "0x10", "1f", "1.5.2", "1e5e5", "--1", "+-1", "1 ", "١", "1e٥", "in",
        "0.12", "3.40282347e+38", "1e400", "00012", "1,5", "i", "n", "infinityy", "İnf", "ınf",
        "1ｅ5", "e", "E", "1E", "5e0", "5e00", ".0", "0.", "-0", "-0.0", "1.0e", "1.0e+",
        "1.0e+1", "1.0E-1", "Nan", "nAn", "INFinity", "+", "++1", "1+", "1-1", "1e1.5",
    ];
    for s in samples.iter() {
        assert_eq!(is_float_token(&chars(s)), s.parse::<f32>().is_ok(), "token {:?}", s);
    }
}

#[test]
fn unsigned_tokens_agree_with_the_standard_parser() {
    let samples = [
        "0", "1", "255", "256", "+255", "+256", "-1", "-0", "", "+", "007", "0000000000000255",
        "4294967295", "4294967296", "+4294967295", "99999999999999999999999", "1.0", "1e2", " 1",
        "1 ", "١", "0x1", "12a", "a12", "++1", "+-1",
    ];
    for s in samples.iter() {
        assert_eq!(parse_bounded(&chars(s), 255), s.parse::<u8>().ok().map(|n| n as u32), "{:?}", s);
        assert_eq!(parse_bounded(&chars(s), u32::MAX), s.parse::<u32>().ok(), "{:?}", s);
    }
}

#[test]
fn tokens_agree_with_split_whitespace() {
    let samples = [
        "", " ", "a", " a", "a ", "a b", "  a   b  ", "a\tb", "a\u{a0}b", "a\u{3000}b\u{2003}c",
        "1 2 3 4 5", "\u{85}x\u{1680}y", "a\u{200b}b", "a\u{2028}b\u{2029}c\u{202f}d\u{205f}e",
        "x\u{b}y\u{c}z\r",
    ];
    for s in samples.iter() {
        let got: Vec<String> = split_tokens(&chars(s)).iter().map(|t| t.iter().collect()).collect();
        let want: Vec<String> = s.split_whitespace().map(|t| t.to_string()).collect();
        assert_eq!(got, want, "{:?}", s);
    }
}

#[test]
fn single_triangle_loads() {
    let data = PuzzleData::from_lines(&lines(&["0 0", "1 0", "0 1", "255 0 0", "0 1 2 0"])).unwrap();
    assert_eq!(data.num_triangles(), 1);
    assert_eq!(data.num_vertices(), 3);
    assert_eq!(data.num_colors(), 1);
    assert_eq!(data.color(0), Some((255, 0, 0)));
    assert_eq!(data.color(1), None);
    assert_eq!(data.get_edges_for_triangle(0), vec![(0, 1), (1, 2), (0, 2)]);
    assert_eq!(data.triangles_with_edge(&(0, 1)), Some(&vec![0]));
    assert_eq!(data.triangles_with_edge(&(1, 0)), None);
    assert_eq!(data.num_edges_from_vertex(0), 2);
    assert_eq!(data.num_edges_from_vertex(7), 0);
}

#[test]
fn malformed_line_fails_the_load() {
    let r = PuzzleData::from_lines(&lines(&["0 0", "1 0", "0 1", "1 2 3 4 5", "0 1 2 0"]));
    assert_eq!(r.err(), Some(GeometryError::ParseFailure));
}
