//! What holds of the operations on a puzzle state, taken together.

use vstd::prelude::*;
use crate::edge::canonical;
use crate::geometry::mesh::lemma_incident_among;
use crate::geometry::PuzzleData;
use crate::ordered::{
    lemma_minus_all, lemma_minus_concat, lemma_minus_disjoint, lemma_push, lemma_without_push,
};
use crate::puzzle_state::{completing, edges_of_all, lemma_completing, missing, PuzzleState};

verus! {

/// To connect an edge a second time changes nothing: the state after the
/// second time is the state after the first.
pub proof fn lemma_connect_twice(
    start: PuzzleState,
    once: PuzzleState,
    twice: PuzzleState,
    data: PuzzleData,
    edge: (u32, u32),
)
    requires
        once.connects(&start, data@, edge),
        twice.connects(&once, data@, edge),
    ensures
        twice == once,
{
    lemma_push(start.connected(), canonical(edge));
}

/// To connect an edge that was not connected and then to disconnect it
/// brings back the connected edges, the requirement of every triangle and
/// the unlocked triangles as they were.
pub proof fn lemma_connect_then_disconnect(
    start: PuzzleState,
    joined: PuzzleState,
    parted: PuzzleState,
    data: PuzzleData,
    edge: (u32, u32),
)
    requires
        data.wf(),
        start.wf(&data),
        !start.connected().contains(canonical(edge)),
        joined.connects(&start, data@, edge),
        parted.disconnects(&joined, data@, edge),
    ensures
        parted.connected() == start.connected(),
        parted.reqs() == start.reqs(),
        parted.unlocked() == start.unlocked(),
{
    let m = data@;
    let e = canonical(edge);
    if e.1 < m.vertices.len() {
        let inc = m.incident(e);
        let done = completing(inc, start.reqs());
        lemma_push(start.connected(), e);
        lemma_without_push(start.connected(), e);
        assert(parted.reqs() =~= start.reqs());
        data.lemma_edges_at_finite();
        lemma_incident_among(m, e, m.triangles.len() as int);
        lemma_completing(inc, start.reqs());
        lemma_minus_concat(start.unlocked(), done, inc);
        assert forall|i: int| 0 <= i < start.unlocked().len() implies !inc.contains(
            #[trigger] start.unlocked()[i],
        ) by {
            let t = start.unlocked()[i];
            assert(start.unlocked().contains(t));
            assert(start.reqs()[t as int] == missing(m.triangles[t as int], start.connected()));
        }
        lemma_minus_disjoint(start.unlocked(), inc);
        assert forall|i: int| 0 <= i < done.len() implies inc.contains(#[trigger] done[i]) by {
            assert(done.contains(done[i]));
        }
        lemma_minus_all(done, inc);
        assert(start.unlocked() + Seq::<usize>::empty() =~= start.unlocked());
    }
}

/// The same holds where permanent edges are kept, for an edge that was
/// neither connected nor permanent, provided that connecting it completed
/// no triangle.
pub proof fn lemma_connect_then_release(
    start: PuzzleState,
    joined: PuzzleState,
    parted: PuzzleState,
    data: PuzzleData,
    edge: (u32, u32),
)
    requires
        data.wf(),
        start.wf(&data),
        !start.connected().contains(canonical(edge)),
        !start.permanent().contains(canonical(edge)),
        forall|t: int| 0 <= t < joined.reqs().len() ==> joined.reqs()[t] != 0 || start.reqs()[t] == 0,
        joined.connects(&start, data@, edge),
        parted.releases(&joined, data@, edge),
    ensures
        parted.connected() == start.connected(),
        parted.reqs() == start.reqs(),
        parted.unlocked() == start.unlocked(),
        parted.permanent() == start.permanent(),
{
    let m = data@;
    let e = canonical(edge);
    if e.1 < m.vertices.len() {
        let inc = m.incident(e);
        let done = completing(inc, start.reqs());
        data.lemma_edges_at_finite();
        lemma_incident_among(m, e, m.triangles.len() as int);
        lemma_completing(inc, start.reqs());
        if done.len() > 0 {
            let t = done[0];
            assert(done.contains(t));
            assert(inc.contains(t));
            assert(joined.reqs()[t as int] == start.reqs()[t as int] - 1);
        }
        assert(done =~= Seq::<usize>::empty());
        assert(edges_of_all(m, done) =~= Set::empty());
        assert(start.permanent().union(Set::empty()) =~= start.permanent());
        lemma_connect_then_disconnect(start, joined, parted, data, edge);
    }
}

/// A triangle is unlocked exactly when its three edges are connected.
pub proof fn lemma_unlocked_iff_connected(state: PuzzleState, data: PuzzleData, t: usize)
    requires
        state.wf(&data),
        t < data@.triangles.len(),
    ensures
        state.unlocked().contains(t) <==> forall|e: (u32, u32)|
            data@.triangles[t as int].has_edge(e) ==> state.connected().contains(e),
{
    let tri = data@.triangles[t as int];
    assert(state.reqs()[t as int] == missing(tri, state.connected()));
    if state.unlocked().contains(t) {
        assert(missing(tri, state.connected()) == 0);
    }
    if forall|e: (u32, u32)| tri.has_edge(e) ==> state.connected().contains(e) {
        assert(tri.has_edge((tri.low(), tri.middle())));
        assert(tri.has_edge((tri.middle(), tri.high())));
        assert(tri.has_edge((tri.low(), tri.high())));
    }
}

/// A state has one requirement for each triangle of its puzzle, so it is
/// finished exactly when there are as many unlocked triangles as the puzzle
/// has triangles.
pub proof fn lemma_finished(state: PuzzleState, data: PuzzleData)
    requires
        state.wf(&data),
    ensures
        state.reqs().len() == data@.triangles.len(),
        state.unlocked().len() == state.reqs().len() <==> state.unlocked().len()
            == data@.triangles.len(),
{
}

/// No vertex has more permanent edges than mesh edges.
pub proof fn lemma_permanent_at_most(state: PuzzleState, data: PuzzleData, v: u32)
    requires
        data.wf(),
        state.wf(&data),
    ensures
        state.permanent_at(v).subset_of(data@.edges_at(v)),
        state.permanent_at(v).finite(),
        state.permanent_at(v).len() <= data@.edges_at(v).len(),
{
    data.lemma_edges_at_finite();
    assert forall|e: (u32, u32)| state.permanent_at(v).contains(e) implies data@.edges_at(
        v,
    ).contains(e) by {
        assert(state.permanent().contains(e));
    }
    vstd::set_lib::lemma_len_subset(state.permanent_at(v), data@.edges_at(v));
}

/// A vertex of the mesh is permanent exactly when as many permanent edges
/// touch it as mesh edges do.
pub proof fn lemma_permanent_vertex_counts(state: PuzzleState, data: PuzzleData, v: u32)
    requires
        data.wf(),
        state.wf(&data),
        v < data@.vertices.len(),
    ensures
        state.permanent_vertices().contains(v) <==> state.permanent_at(v).len() == data@.edges_at(
            v,
        ).len(),
{
    let fixed = state.permanent_at(v);
    let all = data@.edges_at(v);
    lemma_permanent_at_most(state, data, v);
    data.lemma_edges_at_finite();
    if fixed.len() == all.len() {
        vstd::set_lib::lemma_subset_equality(fixed, all);
        assert(all.subset_of(state.permanent()));
    }
    if all.subset_of(state.permanent()) {
        assert(fixed =~= all);
    }
}

} // verus!
