//! The geometry index: the parsed mesh and its adjacency structures.

use std::collections::HashMap;
use vstd::prelude::*;
use crate::geometry::format::{lemma_read_lines_error, parse_line, read, read_lines, Entry};
use crate::geometry::mesh::{lemma_incident_among, Mesh, Triangle};
use crate::geometry::text::views;

pub mod format;
pub mod graphics;
pub mod mesh;
pub mod number;
pub mod text;

pub use crate::geometry::graphics::{
    DynamicGraphicsData, InteractiveFeatures, PointQuad, StaticGraphicsData,
};

verus! {

/// Why a mesh description was refused.
#[derive(Clone, Copy, Debug, PartialEq, Eq, Structural)]
pub enum GeometryError {
    /// A line that is not empty has a number of tokens that no kind of line
    /// has, or the description could not be read to its end.
    ParseFailure,
    /// A coordinate of a vertex is no floating-point literal.
    InvalidVertex,
    /// A triangle names a vertex that is not there yet, names one twice, or
    /// one of its four tokens is no index.
    InvalidTriangle,
    /// A channel of a palette entry is no integer from 0 to 255.
    InvalidColor,
}

/// The key under which an edge is filed: its first index in the upper half
/// and its second in the lower half of 64 bits.
pub closed spec fn edge_key(e: (u32, u32)) -> u64 {
    (e.0 as u64 * 0x1_0000_0000 + e.1 as u64) as u64
}

/// Different edges have different keys.
proof fn lemma_edge_key_injective(a: (u32, u32), b: (u32, u32))
    ensures
        edge_key(a) == edge_key(b) ==> a == b,
{
}

fn key_of(e: (u32, u32)) -> (k: u64)
    ensures
        k == edge_key(e),
{
    e.0 as u64 * 0x1_0000_0000 + e.1 as u64
}

/// Whether `e` has the vertex with index `v` as an endpoint.
pub open spec fn meets(e: (u32, u32), v: int) -> bool {
    e.0 == v || e.1 == v
}

/// The geometry index of a puzzle: the mesh as it was described, and for
/// each edge its triangles, for each triangle its edges, for each vertex
/// its edges.
#[derive(Debug)]
pub struct PuzzleData {
    vertices: Vec<(Vec<char>, Vec<char>)>,
    triangles: Vec<Triangle>,
    colors: Vec<(u8, u8, u8)>,
    edge_to_triangles: HashMap<u64, Vec<usize>>,
    triangle_to_edges: Vec<[(u32, u32); 3]>,
    vertices_to_edges: Vec<Vec<(u32, u32)>>,
}

/// The mesh that three vectors hold.
pub open spec fn mesh_of(
    vertices: Seq<(Vec<char>, Vec<char>)>,
    colors: Seq<(u8, u8, u8)>,
    triangles: Seq<Triangle>,
) -> Mesh {
    Mesh {
        vertices: Seq::new(vertices.len(), |i: int| (vertices[i].0@, vertices[i].1@)),
        colors,
        triangles,
    }
}

/// Whether the adjacency structures are those of the first `n` triangles of
/// `m`, together with the edges in `more` as edges of triangle `n`.
spec fn indexes(
    edge_to_triangles: Map<u64, Vec<usize>>,
    triangle_to_edges: Seq<[(u32, u32); 3]>,
    vertices_to_edges: Seq<Vec<(u32, u32)>>,
    m: Mesh,
    n: int,
    more: Set<(u32, u32)>,
) -> bool {
    &&& triangle_to_edges.len() == n
    &&& forall|t: int| 0 <= t < n ==> (#[trigger] triangle_to_edges[t])@ == m.triangles[t].edges()
    &&& vertices_to_edges.len() == m.vertices.len()
    &&& forall|v: int|
        0 <= v < vertices_to_edges.len() ==> (#[trigger] vertices_to_edges[v])@.no_duplicates()
    &&& forall|v: int, e: (u32, u32)|
        0 <= v < vertices_to_edges.len() ==> (#[trigger] vertices_to_edges[v]@.contains(e) <==> meets(
            e,
            v,
        ) && (m.is_edge_among(e, n) || more.contains(e)))
    &&& forall|e: (u32, u32)|
        #![trigger edge_key(e)]
        {
            let listed = if more.contains(e) {
                m.incident_among(e, n).push(n as usize)
            } else {
                m.incident_among(e, n)
            };
            &&& edge_to_triangles.contains_key(edge_key(e)) <==> listed.len() > 0
            &&& edge_to_triangles.contains_key(edge_key(e)) ==> edge_to_triangles[edge_key(e)]@
                == listed
        }
}

impl View for PuzzleData {
    type V = Mesh;

    closed spec fn view(&self) -> Mesh {
        mesh_of(self.vertices@, self.colors@, self.triangles@)
    }
}

impl PuzzleData {
    /// Whether the index is consistent: the mesh is valid, and the adjacency
    /// structures are those of its triangles.
    pub closed spec fn wf(&self) -> bool {
        &&& self@.valid()
        &&& indexes(
            self.edge_to_triangles@,
            self.triangle_to_edges@,
            self.vertices_to_edges@,
            self@,
            self.triangles@.len() as int,
            Set::empty(),
        )
    }
}

/// Files triangle `n` under the edge `e`, and `e` under both its endpoints
/// if no earlier triangle has it.
fn add_incidence(
    edge_to_triangles: &mut HashMap<u64, Vec<usize>>,
    vertices_to_edges: &mut Vec<Vec<(u32, u32)>>,
    e: (u32, u32),
    n: usize,
    Ghost(triangle_to_edges): Ghost<Seq<[(u32, u32); 3]>>,
    Ghost(m): Ghost<Mesh>,
    Ghost(more): Ghost<Set<(u32, u32)>>,
)
    requires
        indexes(old(edge_to_triangles)@, triangle_to_edges, old(vertices_to_edges)@, m, n as int, more),
        n < m.triangles.len() <= usize::MAX,
        e.0 < e.1 < m.vertices.len(),
        !more.contains(e),
    ensures
        indexes(
            final(edge_to_triangles)@,
            triangle_to_edges,
            final(vertices_to_edges)@,
            m,
            n as int,
            more.insert(e),
        ),
{
    broadcast use vstd::std_specs::hash::group_hash_axioms;

    let key = key_of(e);
    let ghost before = edge_to_triangles@;
    let ghost lists = vertices_to_edges@;
    proof {
        lemma_incident_among(m, e, n as int);
        assert forall|x: (u32, u32)| x != e implies edge_key(x) != key by {
            lemma_edge_key_injective(x, e);
        }
        assert(before.contains_key(edge_key(e)) <==> m.incident_among(e, n as int).len() > 0);
    }
    let mut list: Vec<usize> = match edge_to_triangles.remove(&key) {
        Some(l) => l,
        None => {
            proof {
                assert(!m.is_edge_among(e, n as int));
                assert(!lists[e.0 as int]@.contains(e));
                assert(!lists[e.1 as int]@.contains(e));
            }
            vertices_to_edges[e.0 as usize].push(e);
            vertices_to_edges[e.1 as usize].push(e);
            Vec::new()
        },
    };
    list.push(n);
    edge_to_triangles.insert(key, list);
    proof {
        let after = edge_to_triangles@;
        let new_lists = vertices_to_edges@;
        let more2 = more.insert(e);
        assert(after[key]@ == m.incident_among(e, n as int).push(n));
        assert forall|v: int| 0 <= v < new_lists.len() implies (#[trigger] new_lists[v])@.no_duplicates() by {
            assert(lists[v]@.no_duplicates());
            if new_lists[v] != lists[v] {
                assert(new_lists[v]@ == lists[v]@.push(e));
                assert(!lists[v]@.contains(e));
            }
        }
        assert forall|v: int, x: (u32, u32)| 0 <= v < new_lists.len() implies (
        #[trigger] new_lists[v]@.contains(x) <==> meets(x, v) && (m.is_edge_among(x, n as int)
            || more2.contains(x))) by {
            assert(lists[v]@.contains(x) <==> meets(x, v) && (m.is_edge_among(x, n as int)
                || more.contains(x)));
            if new_lists[v] != lists[v] {
                assert(new_lists[v]@ == lists[v]@.push(e));
                assert(meets(e, v));
                if lists[v]@.contains(x) {
                    let i = choose|i: int| 0 <= i < lists[v]@.len() && lists[v]@[i] == x;
                    assert(new_lists[v]@[i] == x);
                }
                assert(new_lists[v]@[lists[v]@.len() as int] == e);
            } else {
                if x == e && meets(e, v) {
                    assert(m.is_edge_among(e, n as int));
                }
            }
        }
        assert forall|x: (u32, u32)| #![trigger edge_key(x)] {
            let listed = if more2.contains(x) {
                m.incident_among(x, n as int).push(n)
            } else {
                m.incident_among(x, n as int)
            };
            &&& after.contains_key(edge_key(x)) <==> listed.len() > 0
            &&& after.contains_key(edge_key(x)) ==> after[edge_key(x)]@ == listed
        } by {
            if x != e {
                assert(edge_key(x) != key);
                assert(after.contains_key(edge_key(x)) <==> before.contains_key(edge_key(x)));
            }
        }
    }
}

/// Once the three edges of triangle `n` are filed, the structures are those
/// of the first `n + 1` triangles.
proof fn lemma_indexes_next(
    edge_to_triangles: Map<u64, Vec<usize>>,
    triangle_to_edges: Seq<[(u32, u32); 3]>,
    vertices_to_edges: Seq<Vec<(u32, u32)>>,
    m: Mesh,
    n: int,
    edges: [(u32, u32); 3],
)
    requires
        0 <= n < m.triangles.len(),
        edges@ == m.triangles[n].edges(),
        indexes(
            edge_to_triangles,
            triangle_to_edges,
            vertices_to_edges,
            m,
            n,
            Set::empty().insert(edges@[0]).insert(edges@[1]).insert(edges@[2]),
        ),
    ensures
        indexes(
            edge_to_triangles,
            triangle_to_edges.push(edges),
            vertices_to_edges,
            m,
            n + 1,
            Set::empty(),
        ),
{
    let tri = m.triangles[n];
    let more = Set::<(u32, u32)>::empty().insert(edges@[0]).insert(edges@[1]).insert(edges@[2]);
    let none = Set::<(u32, u32)>::empty();
    let grown = triangle_to_edges.push(edges);
    assert forall|x: (u32, u32)| more.contains(x) <==> tri.has_edge(x) by {}
    assert forall|x: (u32, u32)| m.is_edge_among(x, n + 1) <==> (m.is_edge_among(x, n)
        || tri.has_edge(x)) by {
        if m.is_edge_among(x, n + 1) {
            let t = choose|t: int|
                0 <= t < n + 1 && 0 <= t < m.triangles.len() && (#[trigger] m.triangles[t]).has_edge(
                    x,
                );
            if t < n {
                assert(m.is_edge_among(x, n));
            }
        }
        if m.is_edge_among(x, n) {
            let t = choose|t: int|
                0 <= t < n && 0 <= t < m.triangles.len() && (#[trigger] m.triangles[t]).has_edge(x);
            assert(m.is_edge_among(x, n + 1));
        }
        if tri.has_edge(x) {
            assert(m.triangles[n].has_edge(x));
            assert(m.is_edge_among(x, n + 1));
        }
    }
    assert forall|t: int| 0 <= t < n + 1 implies (#[trigger] grown[t])@ == m.triangles[t].edges() by {
        if t < n {
            assert(grown[t] == triangle_to_edges[t]);
        }
    }
    assert forall|v: int, e: (u32, u32)| 0 <= v < vertices_to_edges.len() implies (
    #[trigger] vertices_to_edges[v]@.contains(e) <==> meets(e, v) && (m.is_edge_among(e, n + 1)
        || none.contains(e))) by {
        assert(vertices_to_edges[v]@.contains(e) <==> meets(e, v) && (m.is_edge_among(e, n)
            || more.contains(e)));
    }
    assert forall|x: (u32, u32)| #![trigger edge_key(x)] {
        let listed = if none.contains(x) {
            m.incident_among(x, n + 1).push((n + 1) as usize)
        } else {
            m.incident_among(x, n + 1)
        };
        &&& edge_to_triangles.contains_key(edge_key(x)) <==> listed.len() > 0
        &&& edge_to_triangles.contains_key(edge_key(x)) ==> edge_to_triangles[edge_key(x)]@
            == listed
    } by {
        assert(more.contains(x) <==> tri.has_edge(x));
    }
}

impl PuzzleData {
    /// Builds the adjacency structures of a valid mesh.
    fn index(
        vertices: Vec<(Vec<char>, Vec<char>)>,
        colors: Vec<(u8, u8, u8)>,
        triangles: Vec<Triangle>,
    ) -> (r: PuzzleData)
        requires
            mesh_of(vertices@, colors@, triangles@).valid(),
        ensures
            r@ == mesh_of(vertices@, colors@, triangles@),
            r.wf(),
    {
        let ghost m = mesh_of(vertices@, colors@, triangles@);
        let mut edge_to_triangles: HashMap<u64, Vec<usize>> = HashMap::new();
        let mut triangle_to_edges: Vec<[(u32, u32); 3]> = Vec::new();
        let mut vertices_to_edges: Vec<Vec<(u32, u32)>> = Vec::new();
        let mut v: usize = 0;
        while v < vertices.len()
            invariant
                v <= vertices.len(),
                vertices_to_edges@.len() == v,
                forall|k: int| 0 <= k < v ==> (#[trigger] vertices_to_edges@[k])@.len() == 0,
            decreases vertices.len() - v,
        {
            vertices_to_edges.push(Vec::new());
            v += 1;
        }
        proof {
            broadcast use vstd::std_specs::hash::group_hash_axioms;

            assert forall|e: (u32, u32)| !m.is_edge_among(e, 0) by {}
            assert(indexes(
                edge_to_triangles@,
                triangle_to_edges@,
                vertices_to_edges@,
                m,
                0,
                Set::empty(),
            ));
        }
        let mut n: usize = 0;
        while n < triangles.len()
            invariant
                n <= triangles.len(),
                m == mesh_of(vertices@, colors@, triangles@),
                m.valid(),
                indexes(
                    edge_to_triangles@,
                    triangle_to_edges@,
                    vertices_to_edges@,
                    m,
                    n as int,
                    Set::empty(),
                ),
            decreases triangles.len() - n,
        {
            let tri = triangles[n];
            let edges = tri.canonical_edges();
            assert(tri == m.triangles[n as int]);
            assert(tri.low() < tri.middle() < tri.high() < m.vertices.len());
            let ghost none = Set::<(u32, u32)>::empty();
            add_incidence(
                &mut edge_to_triangles,
                &mut vertices_to_edges,
                edges[0],
                n,
                Ghost(triangle_to_edges@),
                Ghost(m),
                Ghost(none),
            );
            add_incidence(
                &mut edge_to_triangles,
                &mut vertices_to_edges,
                edges[1],
                n,
                Ghost(triangle_to_edges@),
                Ghost(m),
                Ghost(none.insert(edges@[0])),
            );
            add_incidence(
                &mut edge_to_triangles,
                &mut vertices_to_edges,
                edges[2],
                n,
                Ghost(triangle_to_edges@),
                Ghost(m),
                Ghost(none.insert(edges@[0]).insert(edges@[1])),
            );
            proof {
                lemma_indexes_next(
                    edge_to_triangles@,
                    triangle_to_edges@,
                    vertices_to_edges@,
                    m,
                    n as int,
                    edges,
                );
            }
            triangle_to_edges.push(edges);
            n += 1;
        }
        PuzzleData {
            vertices,
            triangles,
            colors,
            edge_to_triangles,
            triangle_to_edges,
            vertices_to_edges,
        }
    }

    /// Reads a mesh description, one line per element of `lines`, and builds
    /// its index. Empty lines are passed over. The first line that fails
    /// decides the error, and nothing of the mesh is returned then.
    pub fn from_lines(lines: &Vec<Vec<char>>) -> (r: Result<PuzzleData, GeometryError>)
        ensures
            match read(views(lines@)) {
                Ok(m) => r.is_ok() && r.unwrap()@ == m && r.unwrap().wf(),
                Err(e) => r.is_err() && r.unwrap_err() == e,
            },
    {
        let mut vertices: Vec<(Vec<char>, Vec<char>)> = Vec::new();
        let mut colors: Vec<(u8, u8, u8)> = Vec::new();
        let mut triangles: Vec<Triangle> = Vec::new();
        let ghost text = views(lines@);
        assert(mesh_of(vertices@, colors@, triangles@).vertices =~= Mesh::empty().vertices);
        let mut i: usize = 0;
        while i < lines.len()
            invariant
                i <= lines.len(),
                text == views(lines@),
                read_lines(text, i as int) == Ok::<Mesh, GeometryError>(
                    mesh_of(vertices@, colors@, triangles@),
                ),
                mesh_of(vertices@, colors@, triangles@).valid(),
            decreases lines.len() - i,
        {
            let ghost m = mesh_of(vertices@, colors@, triangles@);
            assert(text[i as int] == lines@[i as int]@);
            match parse_line(&lines[i], vertices.len(), colors.len()) {
                Ok(Entry::Blank) => {},
                Ok(Entry::Vertex(x, y)) => {
                    vertices.push((x, y));
                    assert(mesh_of(vertices@, colors@, triangles@).vertices =~= m.vertices.push(
                        (x@, y@),
                    ));
                },
                Ok(Entry::Color(r, g, b)) => {
                    colors.push((r, g, b));
                },
                Ok(Entry::Triangle(t)) => {
                    triangles.push(t);
                    assert forall|k: int| 0 <= k < triangles@.len() implies {
                        let tri = #[trigger] triangles@[k];
                        tri.distinct() && tri.v0 < vertices@.len() && tri.v1 < vertices@.len()
                            && tri.v2 < vertices@.len()
                    } by {
                        if k < triangles@.len() - 1 {
                            assert(triangles@[k] == m.triangles[k]);
                        }
                    }
                },
                Err(e) => {
                    assert(read_lines(text, i + 1) == Err::<Mesh, GeometryError>(e));
                    proof {
                        lemma_read_lines_error(text, i + 1, lines.len() as int);
                    }
                    return Err(e);
                },
            }
            i += 1;
        }
        Ok(PuzzleData::index(vertices, colors, triangles))
    }

    /// The number of triangles.
    pub fn num_triangles(&self) -> (r: usize)
        ensures
            r == self@.triangles.len(),
    {
        self.triangles.len()
    }

    /// The number of vertices.
    pub fn num_vertices(&self) -> (r: usize)
        ensures
            r == self@.vertices.len(),
    {
        self.vertices.len()
    }

    /// The triangles that have the canonical edge `edge`, by index and in
    /// increasing order, or `None` where no triangle has it.
    pub fn triangles_with_edge(&self, edge: &(u32, u32)) -> (r: Option<&Vec<usize>>)
        requires
            self.wf(),
        ensures
            match r {
                Some(list) => list@ == self@.incident(*edge) && list@.len() > 0,
                None => self@.incident(*edge).len() == 0,
            },
    {
        broadcast use vstd::std_specs::hash::group_hash_axioms;

        let key = key_of(*edge);
        self.edge_to_triangles.get(&key)
    }

    /// The number of mesh edges that touch `vertex`; zero for an index that
    /// names no vertex.
    pub fn num_edges_from_vertex(&self, vertex: u32) -> (r: usize)
        requires
            self.wf(),
        ensures
            r == self@.edges_at(vertex).len(),
    {
        proof {
            self.lemma_edges_at(vertex);
        }
        if (vertex as usize) < self.vertices_to_edges.len() {
            self.vertices_to_edges[vertex as usize].len()
        } else {
            0
        }
    }

    /// The edges filed under a vertex are the mesh edges that touch it.
    proof fn lemma_edges_at(&self, vertex: u32)
        requires
            self.wf(),
        ensures
            self@.edges_at(vertex).finite(),
            vertex < self.vertices_to_edges@.len() ==> self.vertices_to_edges@[vertex as int]@.len()
                == self@.edges_at(vertex).len(),
            vertex >= self.vertices_to_edges@.len() ==> self@.edges_at(vertex).len() == 0,
    {
        if vertex < self.vertices_to_edges@.len() {
            let list = self.vertices_to_edges@[vertex as int];
            list@.unique_seq_to_set();
            assert forall|e: (u32, u32)| list@.to_set().contains(e) <==> self@.edges_at(
                vertex,
            ).contains(e) by {
                assert(list@.contains(e) <==> meets(e, vertex as int) && (self@.is_edge_among(
                    e,
                    self.triangles@.len() as int,
                ) || Set::<(u32, u32)>::empty().contains(e)));
            }
            assert(list@.to_set() =~= self@.edges_at(vertex));
        } else {
            self.lemma_edges_in_range();
            assert(self@.edges_at(vertex) =~= Set::empty());
        }
    }

    /// Only finitely many edges touch a vertex, and the mesh is valid.
    pub proof fn lemma_edges_at_finite(&self)
        requires
            self.wf(),
        ensures
            forall|v: u32| #[trigger] self@.edges_at(v).finite(),
            self@.valid(),
            self@.triangles.len() <= usize::MAX,
            self@.vertices.len() <= usize::MAX,
    {
        broadcast use vstd::std_specs::vec::group_vec_axioms;

        assert(self@.triangles.len() == self.triangles.len());
        assert(self@.vertices.len() == self.vertices.len());
        assert forall|v: u32| #[trigger] self@.edges_at(v).finite() by {
            self.lemma_edges_at(v);
        }
    }

    /// Every edge of the mesh joins two different vertices of the mesh,
    /// the smaller index first.
    pub proof fn lemma_edges_in_range(&self)
        requires
            self.wf(),
        ensures
            forall|e: (u32, u32)| #[trigger]
                self@.is_edge(e) ==> e.0 < e.1 < self@.vertices.len(),
    {
        assert forall|e: (u32, u32)| #[trigger] self@.is_edge(e) implies e.0 < e.1
            < self@.vertices.len() by {
            let t = choose|t: int|
                0 <= t < self@.triangles.len() && (#[trigger] self@.triangles[t]).has_edge(e);
            let tri = self@.triangles[t];
            assert(tri.low() < tri.middle() < tri.high() < self@.vertices.len());
        }
    }

    /// The two tokens that give the coordinates of a vertex.
    pub fn vertex_tokens(&self, vertex: usize) -> (r: (&Vec<char>, &Vec<char>))
        requires
            vertex < self@.vertices.len(),
        ensures
            (r.0@, r.1@) == self@.vertices[vertex as int],
    {
        let pair = &self.vertices[vertex];
        (&pair.0, &pair.1)
    }

    /// The triangle with index `triangle`.
    pub fn triangle(&self, triangle: usize) -> (r: Triangle)
        requires
            triangle < self@.triangles.len(),
        ensures
            r == self@.triangles[triangle as int],
    {
        self.triangles[triangle]
    }

    /// The number of palette entries.
    pub fn num_colors(&self) -> (r: usize)
        ensures
            r == self@.colors.len(),
    {
        self.colors.len()
    }

    /// The palette entry at position `entry`.
    pub fn palette_entry(&self, entry: usize) -> (r: (u8, u8, u8))
        requires
            entry < self@.colors.len(),
        ensures
            r == self@.colors[entry as int],
    {
        self.colors[entry]
    }

    /// The palette entry with index `color`, or `None` where the palette
    /// has no such entry.
    pub fn color(&self, color: u32) -> (r: Option<(u8, u8, u8)>)
        ensures
            r == if color < self@.colors.len() {
                Some(self@.colors[color as int])
            } else {
                None
            },
    {
        if (color as usize) < self.colors.len() {
            Some(self.colors[color as usize])
        } else {
            None
        }
    }

    /// The three canonical edges of the triangle with index `triangle`.
    pub fn triangle_edges(&self, triangle: usize) -> (r: [(u32, u32); 3])
        requires
            self.wf(),
            triangle < self@.triangles.len(),
        ensures
            r@ == self@.triangles[triangle as int].edges(),
    {
        self.triangle_to_edges[triangle]
    }

    /// The three canonical edges of a triangle, in the order low-middle,
    /// middle-high, low-high.
    pub fn get_edges_for_triangle(&self, triangle: u32) -> (r: Vec<(u32, u32)>)
        requires
            self.wf(),
            triangle < self@.triangles.len(),
        ensures
            r@ == self@.triangles[triangle as int].edges(),
    {
        let edges = &self.triangle_to_edges[triangle as usize];
        let r = vec![edges[0], edges[1], edges[2]];
        assert(r@ =~= self@.triangles[triangle as int].edges());
        r
    }
}

} // verus!
