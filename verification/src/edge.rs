//! Canonical edges: unordered pairs of vertex indices, smaller index first.

use vstd::prelude::*;

verus! {

/// The canonical form of the unordered pair `{a, b}`.
pub open spec fn canonical(e: (u32, u32)) -> (u32, u32) {
    if e.0 > e.1 {
        (e.1, e.0)
    } else {
        e
    }
}

/// Whether the edge `e` has `v` as one of its endpoints.
pub open spec fn touches(e: (u32, u32), v: u32) -> bool {
    e.0 == v || e.1 == v
}

/// Orders the endpoints of `edge` so that the smaller comes first.
pub fn canonical_edge(edge: &(u32, u32)) -> (r: (u32, u32))
    ensures
        r == canonical(*edge),
        r.0 <= r.1,
{
    if edge.0 > edge.1 {
        (edge.1, edge.0)
    } else {
        *edge
    }
}

} // verus!
