//! The mathematical model of a mesh: vertices, palette and triangles, and the
//! adjacency between edges, triangles and vertices that follows from them.

use vstd::prelude::*;
use crate::edge::touches;

verus! {

/// A triangle of the mesh: three vertex indices and a palette index.
#[derive(Clone, Copy, Debug, PartialEq, Eq, Structural)]
pub struct Triangle {
    pub v0: u32,
    pub v1: u32,
    pub v2: u32,
    pub color: u32,
}

/// What a mesh description says: the vertices by the two tokens that give
/// their coordinates, the palette by its 8-bit channels, and the triangles.
/// Each is in the order of the description.
pub struct Mesh {
    pub vertices: Seq<(Seq<char>, Seq<char>)>,
    pub colors: Seq<(u8, u8, u8)>,
    pub triangles: Seq<Triangle>,
}

impl Triangle {
    /// The smallest of the three vertex indices.
    pub open spec fn low(self) -> u32 {
        if self.v0 <= self.v1 && self.v0 <= self.v2 {
            self.v0
        } else if self.v1 <= self.v2 {
            self.v1
        } else {
            self.v2
        }
    }

    /// The largest of the three vertex indices.
    pub open spec fn high(self) -> u32 {
        if self.v0 >= self.v1 && self.v0 >= self.v2 {
            self.v0
        } else if self.v1 >= self.v2 {
            self.v1
        } else {
            self.v2
        }
    }

    /// The vertex index between the smallest and the largest.
    pub open spec fn middle(self) -> u32 {
        (self.v0 + self.v1 + self.v2 - self.low() - self.high()) as u32
    }

    /// Whether the three vertex indices are pairwise distinct.
    pub open spec fn distinct(self) -> bool {
        self.v0 != self.v1 && self.v1 != self.v2 && self.v0 != self.v2
    }

    /// The three canonical edges, in the order low-middle, middle-high, low-high.
    pub open spec fn edges(self) -> Seq<(u32, u32)> {
        seq![(self.low(), self.middle()), (self.middle(), self.high()), (self.low(), self.high())]
    }

    /// Whether `e` is one of the three canonical edges.
    pub open spec fn has_edge(self, e: (u32, u32)) -> bool {
        e == (self.low(), self.middle()) || e == (self.middle(), self.high()) || e == (
            self.low(),
            self.high(),
        )
    }

    /// The three canonical edges, in the order low-middle, middle-high, low-high.
    pub fn canonical_edges(&self) -> (r: [(u32, u32); 3])
        ensures
            r@ == self.edges(),
    {
        let (mut a, mut b, mut c) = (self.v0, self.v1, self.v2);
        if a > b {
            let t = a;
            a = b;
            b = t;
        }
        if b > c {
            let t = b;
            b = c;
            c = t;
        }
        if a > b {
            let t = a;
            a = b;
            b = t;
        }
        let r = [(a, b), (b, c), (a, c)];
        assert(r@ =~= self.edges());
        r
    }
}

impl Mesh {
    /// The mesh of the empty description.
    pub open spec fn empty() -> Mesh {
        Mesh { vertices: Seq::empty(), colors: Seq::empty(), triangles: Seq::empty() }
    }

    /// Whether every triangle names three distinct vertices of the mesh.
    pub open spec fn valid(self) -> bool {
        forall|t: int|
            0 <= t < self.triangles.len() ==> {
                let tri = #[trigger] self.triangles[t];
                tri.distinct() && tri.v0 < self.vertices.len() && tri.v1 < self.vertices.len()
                    && tri.v2 < self.vertices.len()
            }
    }

    /// The triangles among the first `n` that have the edge `e`, by index, in
    /// increasing order.
    pub open spec fn incident_among(self, e: (u32, u32), n: int) -> Seq<usize>
        decreases n,
    {
        if n <= 0 {
            Seq::empty()
        } else if self.triangles[n - 1].has_edge(e) {
            self.incident_among(e, n - 1).push((n - 1) as usize)
        } else {
            self.incident_among(e, n - 1)
        }
    }

    /// The triangles that have the edge `e`, by index, in increasing order.
    pub open spec fn incident(self, e: (u32, u32)) -> Seq<usize> {
        self.incident_among(e, self.triangles.len() as int)
    }

    /// Whether `e` is an edge of one of the first `n` triangles.
    pub open spec fn is_edge_among(self, e: (u32, u32), n: int) -> bool {
        exists|t: int| 0 <= t < n && 0 <= t < self.triangles.len() && (
        #[trigger] self.triangles[t]).has_edge(e)
    }

    /// Whether `e` is an edge of some triangle.
    pub open spec fn is_edge(self, e: (u32, u32)) -> bool {
        self.is_edge_among(e, self.triangles.len() as int)
    }

    /// The edges of the mesh that touch the vertex `v`.
    pub open spec fn edges_at(self, v: u32) -> Set<(u32, u32)> {
        Set::new(|e: (u32, u32)| touches(e, v) && self.is_edge(e))
    }
}

/// The triangles listed for an edge are those that have it, each once.
pub proof fn lemma_incident_among(m: Mesh, e: (u32, u32), n: int)
    requires
        0 <= n <= m.triangles.len(),
        m.triangles.len() <= usize::MAX,
    ensures
        forall|t: usize|
            m.incident_among(e, n).contains(t) <==> (t < n && m.triangles[t as int].has_edge(e)),
        m.incident_among(e, n).no_duplicates(),
        m.incident_among(e, n).len() <= n,
        m.incident_among(e, n).len() > 0 <==> m.is_edge_among(e, n),
    decreases n,
{
    if n > 0 {
        lemma_incident_among(m, e, n - 1);
        let prev = m.incident_among(e, n - 1);
        let last = (n - 1) as usize;
        if m.triangles[n - 1].has_edge(e) {
            let cur = prev.push(last);
            assert forall|t: usize| cur.contains(t) <==> (t < n && m.triangles[t as int].has_edge(
                e,
            )) by {
                if cur.contains(t) {
                    let i = choose|i: int| 0 <= i < cur.len() && cur[i] == t;
                    if i < prev.len() {
                        assert(prev.contains(t));
                    }
                }
                if t < n && m.triangles[t as int].has_edge(e) {
                    if t == last {
                        assert(cur[prev.len() as int] == t);
                    } else {
                        assert(prev.contains(t));
                        let i = choose|i: int| 0 <= i < prev.len() && prev[i] == t;
                        assert(cur[i] == t);
                    }
                }
            }
            assert(!prev.contains(last));
            assert(cur.no_duplicates());
            assert(m.is_edge_among(e, n));
        } else {
            if m.is_edge_among(e, n) {
                let t = choose|t: int|
                    0 <= t < n && 0 <= t < m.triangles.len() && (#[trigger] m.triangles[t]).has_edge(
                        e,
                    );
                assert(m.is_edge_among(e, n - 1));
            }
            if m.is_edge_among(e, n - 1) {
                let t = choose|t: int|
                    0 <= t < n - 1 && 0 <= t < m.triangles.len() && (
                    #[trigger] m.triangles[t]).has_edge(e);
                assert(m.is_edge_among(e, n));
            }
        }
    } else {
        assert(!m.is_edge_among(e, n));
    }
}

} // verus!
