//! The mesh description format, line by line. A line is a vertex, a palette
//! entry or a triangle, and which of them is decided by the number of its
//! tokens alone.

use vstd::prelude::*;
use crate::geometry::GeometryError;
use crate::geometry::mesh::{Mesh, Triangle};
use crate::geometry::number::{is_float_literal, is_float_token, parse_bounded, parse_unsigned};
use crate::geometry::text::{split_tokens, tokens, views};

verus! {

/// What one line of a description adds to the mesh. An empty line adds
/// nothing.
pub enum Item {
    Blank,
    Vertex(Seq<char>, Seq<char>),
    Color(u8, u8, u8),
    Triangle(Triangle),
}

/// What one line of a description adds to the mesh, as read by `parse_line`.
/// A vertex is kept as the two tokens that give its coordinates.
#[derive(Debug)]
pub enum Entry {
    Blank,
    Vertex(Vec<char>, Vec<char>),
    Color(u8, u8, u8),
    Triangle(Triangle),
}

impl View for Entry {
    type V = Item;

    open spec fn view(&self) -> Item {
        match *self {
            Entry::Blank => Item::Blank,
            Entry::Vertex(x, y) => Item::Vertex(x@, y@),
            Entry::Color(r, g, b) => Item::Color(r, g, b),
            Entry::Triangle(t) => Item::Triangle(t),
        }
    }
}

/// The palette entry that three tokens give: each an integer from 0 to 255.
pub open spec fn color_of(t: Seq<Seq<char>>) -> Option<(u8, u8, u8)> {
    match (parse_unsigned(t[0], 255), parse_unsigned(t[1], 255), parse_unsigned(t[2], 255)) {
        (Some(r), Some(g), Some(b)) => Some((r as u8, g as u8, b as u8)),
        _ => None,
    }
}

/// The triangle that four tokens give in a mesh of `vertex_count` vertices
/// and `color_count` palette entries so far: three pairwise distinct indices
/// of vertices already there, and a palette index that is at most
/// `color_count`.
pub open spec fn triangle_of(t: Seq<Seq<char>>, vertex_count: nat, color_count: nat) -> Option<
    Triangle,
> {
    match (
        parse_unsigned(t[0], u32::MAX as nat),
        parse_unsigned(t[1], u32::MAX as nat),
        parse_unsigned(t[2], u32::MAX as nat),
        parse_unsigned(t[3], u32::MAX as nat),
    ) {
        (Some(a), Some(b), Some(c), Some(k)) => if a < vertex_count && b < vertex_count && c
            < vertex_count && a != b && b != c && a != c && k <= color_count {
            Some(Triangle { v0: a as u32, v1: b as u32, v2: c as u32, color: k as u32 })
        } else {
            None
        },
        _ => None,
    }
}

/// What the line `line` adds to a mesh of `vertex_count` vertices and
/// `color_count` palette entries, or the error that it fails with. A line
/// without any character is passed over. Every other line is judged by the
/// number of its tokens: one of whitespace alone has none, and fails.
pub open spec fn item_of(line: Seq<char>, vertex_count: nat, color_count: nat) -> Result<
    Item,
    GeometryError,
> {
    let t = tokens(line);
    if line.len() == 0 {
        Ok(Item::Blank)
    } else if t.len() == 2 {
        if is_float_literal(t[0]) && is_float_literal(t[1]) {
            Ok(Item::Vertex(t[0], t[1]))
        } else {
            Err(GeometryError::InvalidVertex)
        }
    } else if t.len() == 3 {
        match color_of(t) {
            Some((r, g, b)) => Ok(Item::Color(r, g, b)),
            None => Err(GeometryError::InvalidColor),
        }
    } else if t.len() == 4 {
        match triangle_of(t, vertex_count, color_count) {
            Some(tri) => Ok(Item::Triangle(tri)),
            None => Err(GeometryError::InvalidTriangle),
        }
    } else {
        Err(GeometryError::ParseFailure)
    }
}

impl Mesh {
    /// The mesh with `item` added at the end of its kind.
    pub open spec fn with(self, item: Item) -> Mesh {
        match item {
            Item::Blank => self,
            Item::Vertex(x, y) => Mesh { vertices: self.vertices.push((x, y)), ..self },
            Item::Color(r, g, b) => Mesh { colors: self.colors.push((r, g, b)), ..self },
            Item::Triangle(t) => Mesh { triangles: self.triangles.push(t), ..self },
        }
    }
}

/// The mesh that the first `n` lines of `lines` describe, or the error of
/// the first line among them that fails. An empty line leaves the mesh of
/// the lines before it as it is.
pub open spec fn read_lines(lines: Seq<Seq<char>>, n: int) -> Result<Mesh, GeometryError>
    decreases n,
{
    if n <= 0 {
        Ok(Mesh::empty())
    } else {
        match read_lines(lines, n - 1) {
            Ok(m) => match item_of(lines[n - 1], m.vertices.len(), m.colors.len()) {
                Ok(item) => Ok(m.with(item)),
                Err(e) => Err(e),
            },
            Err(e) => Err(e),
        }
    }
}

/// The mesh that `lines` describe, or the error of the first line that fails.
pub open spec fn read(lines: Seq<Seq<char>>) -> Result<Mesh, GeometryError> {
    read_lines(lines, lines.len() as int)
}

/// Reads three tokens as a palette entry.
fn parse_color(toks: &Vec<Vec<char>>) -> (r: Option<(u8, u8, u8)>)
    requires
        toks.len() == 3,
    ensures
        r == color_of(views(toks@)),
{
    let r = parse_bounded(&toks[0], 255);
    let g = parse_bounded(&toks[1], 255);
    let b = parse_bounded(&toks[2], 255);
    match (r, g, b) {
        (Some(r), Some(g), Some(b)) => Some((r as u8, g as u8, b as u8)),
        _ => None,
    }
}

/// Reads four tokens as a triangle of a mesh that has `vertex_count`
/// vertices and `color_count` palette entries so far.
fn parse_triangle(toks: &Vec<Vec<char>>, vertex_count: usize, color_count: usize) -> (r: Option<
    Triangle,
>)
    requires
        toks.len() == 4,
    ensures
        r == triangle_of(views(toks@), vertex_count as nat, color_count as nat),
{
    let a = parse_bounded(&toks[0], u32::MAX);
    let b = parse_bounded(&toks[1], u32::MAX);
    let c = parse_bounded(&toks[2], u32::MAX);
    let k = parse_bounded(&toks[3], u32::MAX);
    match (a, b, c, k) {
        (Some(a), Some(b), Some(c), Some(k)) => {
            if (a as usize) < vertex_count && (b as usize) < vertex_count && (c as usize)
                < vertex_count && a != b && b != c && a != c && k as usize <= color_count {
                Some(Triangle { v0: a, v1: b, v2: c, color: k })
            } else {
                None
            }
        },
        _ => None,
    }
}

/// Reads one line of a description for a mesh that has `vertex_count`
/// vertices and `color_count` palette entries so far.
pub fn parse_line(line: &Vec<char>, vertex_count: usize, color_count: usize) -> (r: Result<
    Entry,
    GeometryError,
>)
    ensures
        match item_of(line@, vertex_count as nat, color_count as nat) {
            Ok(item) => r.is_ok() && r.unwrap()@ == item,
            Err(e) => r == Err::<Entry, GeometryError>(e),
        },
{
    if line.len() == 0 {
        return Ok(Entry::Blank);
    }
    let mut toks = split_tokens(line);
    let count: usize = toks.len();
    if count == 2 {
        if is_float_token(&toks[0]) && is_float_token(&toks[1]) {
            let y = toks.pop().unwrap();
            let x = toks.pop().unwrap();
            Ok(Entry::Vertex(x, y))
        } else {
            Err(GeometryError::InvalidVertex)
        }
    } else if count == 3 {
        match parse_color(&toks) {
            Some((r, g, b)) => Ok(Entry::Color(r, g, b)),
            None => Err(GeometryError::InvalidColor),
        }
    } else if count == 4 {
        match parse_triangle(&toks, vertex_count, color_count) {
            Some(tri) => Ok(Entry::Triangle(tri)),
            None => Err(GeometryError::InvalidTriangle),
        }
    } else {
        Err(GeometryError::ParseFailure)
    }
}

/// How many of the first `n` lines of `lines` have exactly `k` tokens.
pub open spec fn lines_with(lines: Seq<Seq<char>>, k: nat, n: int) -> nat
    decreases n,
{
    if n <= 0 {
        0
    } else if tokens(lines[n - 1]).len() == k {
        lines_with(lines, k, n - 1) + 1
    } else {
        lines_with(lines, k, n - 1)
    }
}

/// A description that is accepted has as many triangles as it has lines of
/// four tokens, as many palette entries as lines of three tokens, and as
/// many vertices as lines of two tokens.
pub proof fn lemma_counts(lines: Seq<Seq<char>>, n: int)
    requires
        0 <= n <= lines.len(),
        read_lines(lines, n).is_ok(),
    ensures
        read_lines(lines, n).unwrap().triangles.len() == lines_with(lines, 4, n),
        read_lines(lines, n).unwrap().colors.len() == lines_with(lines, 3, n),
        read_lines(lines, n).unwrap().vertices.len() == lines_with(lines, 2, n),
    decreases n,
{
    if n > 0 {
        lemma_counts(lines, n - 1);
    }
}

/// A line that is not empty and whose number of tokens is not two, three or
/// four fails the whole description with `ParseFailure`, unless an earlier
/// line fails first.
pub proof fn lemma_malformed_line(lines: Seq<Seq<char>>, k: int)
    requires
        0 <= k < lines.len(),
        read_lines(lines, k).is_ok(),
        lines[k].len() > 0,
        tokens(lines[k]).len() < 2 || tokens(lines[k]).len() > 4,
    ensures
        read(lines) == Err::<Mesh, GeometryError>(GeometryError::ParseFailure),
    decreases lines.len() - k,
{
    assert(read_lines(lines, k + 1) == Err::<Mesh, GeometryError>(GeometryError::ParseFailure));
    lemma_read_lines_error(lines, k + 1, lines.len() as int);
}

/// An empty line changes nothing: the lines up to it describe what the
/// lines before it describe, or fail as they fail.
pub proof fn lemma_empty_line(lines: Seq<Seq<char>>, k: int)
    requires
        0 <= k < lines.len(),
        lines[k].len() == 0,
    ensures
        read_lines(lines, k + 1) == read_lines(lines, k),
{
    match read_lines(lines, k) {
        Ok(m) => {
            assert(m.with(Item::Blank) == m);
        },
        Err(_) => {},
    }
}

/// Once a line has failed, its error is that of every longer prefix.
pub proof fn lemma_read_lines_error(lines: Seq<Seq<char>>, k: int, n: int)
    requires
        0 <= k <= n,
        read_lines(lines, k).is_err(),
    ensures
        read_lines(lines, n) == read_lines(lines, k),
    decreases n - k,
{
    if k < n {
        lemma_read_lines_error(lines, k, n - 1);
    }
}

} // verus!
