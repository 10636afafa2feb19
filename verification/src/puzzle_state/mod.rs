//! The state of a puzzle session: which edges the player has connected,
//! which triangles are unlocked, and which edges and vertices are permanent.

use vstd::prelude::*;
use crate::edge::{canonical, canonical_edge, touches};

pub mod laws;

use crate::geometry::mesh::{lemma_incident_among, Mesh, Triangle};
use crate::geometry::{meets, PuzzleData};
use crate::ordered::{
    find_edge, lemma_concat, lemma_filter_members, lemma_filter_push, lemma_minus,
    lemma_minus_disjoint, lemma_minus_is_filter, lemma_minus_nothing, lemma_minus_push, lemma_push,
    lemma_without, lemma_without_minus, minus, remove_edge, remove_index, without,
};

verus! {

/// How many of the three edges of `tri` are not in `connected`.
pub open spec fn missing(tri: Triangle, connected: Seq<(u32, u32)>) -> int {
    (if connected.contains((tri.low(), tri.middle())) {
        0int
    } else {
        1int
    }) + (if connected.contains((tri.middle(), tri.high())) {
        0int
    } else {
        1int
    }) + (if connected.contains((tri.low(), tri.high())) {
        0int
    } else {
        1int
    })
}

/// The number of mesh edges at the vertex with index `v`.
pub open spec fn degree(m: Mesh, v: int) -> nat {
    if 0 <= v <= u32::MAX {
        m.edges_at(v as u32).len()
    } else {
        0
    }
}

/// Whether `by_vertex` files each connected edge under its endpoints, and
/// the connected edges are canonical edges between vertices of the mesh,
/// each once.
pub open spec fn connection(
    connected: Seq<(u32, u32)>,
    by_vertex: Seq<Vec<(u32, u32)>>,
    vertex_count: nat,
) -> bool {
    &&& connected.no_duplicates()
    &&& forall|i: int|
        0 <= i < connected.len() ==> (#[trigger] connected[i]).0 <= connected[i].1 < vertex_count
    &&& by_vertex.len() == vertex_count
    &&& forall|v: int| 0 <= v < by_vertex.len() ==> (#[trigger] by_vertex[v])@.no_duplicates()
    &&& forall|v: int, e: (u32, u32)|
        0 <= v < by_vertex.len() ==> (#[trigger] by_vertex[v]@.contains(e) <==> connected.contains(e)
            && meets(e, v))
}

/// Whether `by_vertex` files each of `edges` under its endpoints, and each
/// of `edges` occurs once.
pub open spec fn filing(edges: Seq<(u32, u32)>, by_vertex: Seq<Vec<(u32, u32)>>) -> bool {
    &&& edges.no_duplicates()
    &&& forall|v: int| 0 <= v < by_vertex.len() ==> (#[trigger] by_vertex[v])@.no_duplicates()
    &&& forall|v: int, e: (u32, u32)|
        0 <= v < by_vertex.len() ==> (#[trigger] by_vertex[v]@.contains(e) <==> edges.contains(e)
            && meets(e, v))
}

/// Whether the permanent edges are mesh edges, each once, `by_vertex` files
/// each under its endpoints, and `flags` marks the vertices all of whose
/// mesh edges are permanent.
pub open spec fn permanence(
    edges: Seq<(u32, u32)>,
    by_vertex: Seq<Vec<(u32, u32)>>,
    flags: Seq<bool>,
    m: Mesh,
) -> bool {
    &&& edges.no_duplicates()
    &&& forall|i: int|
        0 <= i < edges.len() ==> m.is_edge(#[trigger] edges[i]) && edges[i].0 < edges[i].1
            < m.vertices.len()
    &&& by_vertex.len() == m.vertices.len()
    &&& flags.len() == m.vertices.len()
    &&& forall|v: int| 0 <= v < by_vertex.len() ==> (#[trigger] by_vertex[v])@.no_duplicates()
    &&& forall|v: int, e: (u32, u32)|
        0 <= v < by_vertex.len() ==> (#[trigger] by_vertex[v]@.contains(e) <==> edges.contains(e)
            && meets(e, v))
    &&& forall|v: int|
        0 <= v < flags.len() ==> (#[trigger] flags[v] <==> by_vertex[v]@.len() == degree(m, v))
}

/// The triangles of `list` whose requirement in `reqs` is one: those that
/// one more edge completes.
pub open spec fn completing(list: Seq<usize>, reqs: Seq<u32>) -> Seq<usize> {
    list.filter(|t: usize| reqs[t as int] == 1)
}

/// The edges of the triangles `ts` of the mesh `m`.
pub open spec fn edges_of_all(m: Mesh, ts: Seq<usize>) -> Set<(u32, u32)> {
    Set::new(
        |x: (u32, u32)|
            exists|i: int| 0 <= i < ts.len() && (#[trigger] m.triangles[ts[i] as int]).has_edge(x),
    )
}

/// The triangles that one more edge completes are those of the list whose
/// requirement is one, in the order of the list.
pub proof fn lemma_completing(list: Seq<usize>, reqs: Seq<u32>)
    ensures
        forall|t: usize| #[trigger]
            completing(list, reqs).contains(t) <==> list.contains(t) && reqs[t as int] == 1,
        list.no_duplicates() ==> completing(list, reqs).no_duplicates(),
{
    lemma_filter_members(list, |t: usize| reqs[t as int] == 1);
}

/// The triangles that one more edge completes, for a list with one more
/// triangle at its end.
pub proof fn lemma_completing_push(list: Seq<usize>, t: usize, reqs: Seq<u32>)
    ensures
        completing(list.push(t), reqs) == if reqs[t as int] == 1 {
            completing(list, reqs).push(t)
        } else {
            completing(list, reqs)
        },
        completing(Seq::empty(), reqs) == Seq::<usize>::empty(),
{
    lemma_filter_push(list, t, |t: usize| reqs[t as int] == 1);
    Seq::<usize>::empty().lemma_filter_len(|t: usize| reqs[t as int] == 1);
    assert(completing(Seq::empty(), reqs) =~= Seq::<usize>::empty());
}

/// The edges of a list of triangles with one more triangle at its end.
pub proof fn lemma_edges_of_all_push(m: Mesh, ts: Seq<usize>, t: usize, x: (u32, u32))
    ensures
        edges_of_all(m, ts.push(t)).contains(x) <==> edges_of_all(m, ts).contains(x)
            || m.triangles[t as int].has_edge(x),
{
    let longer = ts.push(t);
    if edges_of_all(m, longer).contains(x) {
        let i = choose|i: int|
            0 <= i < longer.len() && (#[trigger] m.triangles[longer[i] as int]).has_edge(x);
        if i < ts.len() {
            assert(m.triangles[ts[i] as int].has_edge(x));
        }
    }
    if edges_of_all(m, ts).contains(x) {
        let i = choose|i: int| 0 <= i < ts.len() && (#[trigger] m.triangles[ts[i] as int]).has_edge(x);
        assert(m.triangles[longer[i] as int].has_edge(x));
    }
    if m.triangles[t as int].has_edge(x) {
        assert(m.triangles[longer[ts.len() as int] as int].has_edge(x));
    }
}

/// To connect an edge that was not connected lowers by one the number of
/// missing edges of each triangle that has it, and of no other.
pub proof fn lemma_missing_push(tri: Triangle, connected: Seq<(u32, u32)>, e: (u32, u32))
    requires
        tri.distinct(),
        !connected.contains(e),
    ensures
        missing(tri, connected.push(e)) == missing(tri, connected) - if tri.has_edge(e) {
            1int
        } else {
            0int
        },
        0 <= missing(tri, connected) <= 3,
        tri.has_edge(e) ==> missing(tri, connected) >= 1,
{
    lemma_push(connected, e);
}

/// To disconnect an edge raises by one the number of missing edges of each
/// triangle that has it, and of no other.
pub proof fn lemma_missing_without(tri: Triangle, connected: Seq<(u32, u32)>, e: (u32, u32))
    requires
        tri.distinct(),
        connected.contains(e),
    ensures
        missing(tri, without(connected, e)) == missing(tri, connected) + if tri.has_edge(e) {
            1int
        } else {
            0int
        },
        tri.has_edge(e) ==> missing(tri, connected) <= 2,
{
    lemma_without(connected, e);
}

/// The connected edges that stay when a vertex lets go of what it can:
/// those that do not touch `v`, and those that are permanent.
pub open spec fn settled(connected: Seq<(u32, u32)>, permanent: Set<(u32, u32)>, v: u32) -> Seq<
    (u32, u32),
> {
    connected.filter(|x: (u32, u32)| !touches(x, v) || permanent.contains(x))
}

/// To leave out the edges of `gone` is to settle the vertex `v`, where
/// `gone` holds the connected edges that touch `v` and are not permanent.
pub proof fn lemma_settled(
    connected: Seq<(u32, u32)>,
    permanent: Set<(u32, u32)>,
    v: u32,
    gone: Seq<(u32, u32)>,
)
    requires
        forall|i: int|
            0 <= i < connected.len() ==> (gone.contains(#[trigger] connected[i]) <==> touches(
                connected[i],
                v,
            ) && !permanent.contains(connected[i])),
    ensures
        minus(connected, gone) == settled(connected, permanent, v),
        forall|x: (u32, u32)| #[trigger]
            settled(connected, permanent, v).contains(x) <==> connected.contains(x) && (!touches(
                x,
                v,
            ) || permanent.contains(x)),
{
    let keep = |x: (u32, u32)| !touches(x, v) || permanent.contains(x);
    lemma_minus_is_filter(connected, gone, keep);
    lemma_filter_members(connected, keep);
}

/// The state of a puzzle session.
#[derive(Debug)]
pub struct PuzzleState {
    triangle_reqs: Vec<u32>,
    unlocked_triangles: Vec<usize>,
    connected_edges: Vec<(u32, u32)>,
    connected_edges_by_vertex: Vec<Vec<(u32, u32)>>,
    permanent_edges_by_vertex: Vec<Vec<(u32, u32)>>,
    permanent_edges: Vec<(u32, u32)>,
    permanent_vertices: Vec<bool>,
}

impl PuzzleState {
    /// For each triangle, how many of its edges are still to be connected.
    pub closed spec fn reqs(&self) -> Seq<u32> {
        self.triangle_reqs@
    }

    /// The connected edges, in the order in which they were connected.
    pub closed spec fn connected(&self) -> Seq<(u32, u32)> {
        self.connected_edges@
    }

    /// The unlocked triangles, in the order in which they were unlocked.
    pub closed spec fn unlocked(&self) -> Seq<usize> {
        self.unlocked_triangles@
    }

    /// The permanent edges.
    pub closed spec fn permanent(&self) -> Set<(u32, u32)> {
        self.permanent_edges@.to_set()
    }

    /// The permanent vertices.
    pub closed spec fn permanent_vertices(&self) -> Set<u32> {
        Set::new(|v: u32| v < self.permanent_vertices@.len() && self.permanent_vertices@[v as int])
    }

    /// The connected edges that touch `v`.
    pub open spec fn connected_at(&self, v: u32) -> Set<(u32, u32)> {
        Set::new(|e: (u32, u32)| self.connected().contains(e) && touches(e, v))
    }

    /// The permanent edges that touch `v`.
    pub open spec fn permanent_at(&self, v: u32) -> Set<(u32, u32)> {
        Set::new(|e: (u32, u32)| self.permanent().contains(e) && touches(e, v))
    }

    /// The connected edges that touch `v` and are not permanent.
    pub open spec fn loose_at(&self, v: u32) -> Set<(u32, u32)> {
        Set::new(
            |e: (u32, u32)| self.connected().contains(e) && touches(e, v) && !self.permanent().contains(e),
        )
    }

    /// Whether the player can still do something at `v`: some mesh edge
    /// that touches it is not permanent yet, or some connected edge that
    /// touches it is not permanent.
    pub open spec fn interactable(&self, m: Mesh, v: u32) -> bool {
        m.edges_at(v).len() > self.permanent_at(v).len() || self.loose_at(v).len() > 0
    }

    /// What holds of the state after every operation, for the mesh `m`:
    /// each requirement counts the edges of its triangle that are not
    /// connected; the unlocked triangles are those whose requirement is
    /// zero; the edges of an unlocked triangle are permanent; and a vertex
    /// of the mesh is permanent exactly when every mesh edge that touches
    /// it is.
    pub open spec fn consistent(&self, m: Mesh) -> bool {
        &&& self.reqs().len() == m.triangles.len()
        &&& forall|t: int|
            0 <= t < m.triangles.len() ==> #[trigger] self.reqs()[t] == missing(
                m.triangles[t],
                self.connected(),
            )
        &&& self.connected().no_duplicates()
        &&& forall|i: int|
            0 <= i < self.connected().len() ==> (#[trigger] self.connected()[i]).0
                <= self.connected()[i].1 < m.vertices.len()
        &&& self.unlocked().no_duplicates()
        &&& forall|t: usize| #[trigger]
            self.unlocked().contains(t) <==> t < m.triangles.len() && self.reqs()[t as int] == 0
        &&& forall|e: (u32, u32)| #[trigger] self.permanent().contains(e) ==> m.is_edge(e)
        &&& forall|t: usize, e: (u32, u32)|
            self.unlocked().contains(t) && #[trigger] m.triangles[t as int].has_edge(e)
                ==> self.permanent().contains(e)
        &&& forall|v: u32| #[trigger]
            self.permanent_vertices().contains(v) <==> v < m.vertices.len() && m.edges_at(
                v,
            ).subset_of(self.permanent())
    }

    /// Whether the reverse indices agree with the sets that they index.
    pub closed spec fn indexed(&self, m: Mesh) -> bool {
        &&& connection(
            self.connected_edges@,
            self.connected_edges_by_vertex@,
            m.vertices.len(),
        )
        &&& permanence(
            self.permanent_edges@,
            self.permanent_edges_by_vertex@,
            self.permanent_vertices@,
            m,
        )
    }

    /// Whether the reverse indices file each connected edge and each
    /// permanent edge under its endpoints.
    pub closed spec fn filed(&self) -> bool {
        &&& connection(
            self.connected_edges@,
            self.connected_edges_by_vertex@,
            self.connected_edges_by_vertex@.len(),
        )
        &&& filing(self.permanent_edges@, self.permanent_edges_by_vertex@)
        &&& forall|i: int|
            0 <= i < self.permanent_edges@.len() ==> (#[trigger] self.permanent_edges@[i]).0
                < self.permanent_edges@[i].1 < self.permanent_edges_by_vertex@.len()
        &&& self.permanent_edges_by_vertex@.len() == self.connected_edges_by_vertex@.len()
        &&& self.permanent_vertices@.len() == self.connected_edges_by_vertex@.len()
    }

    /// Whether the state is a state of the puzzle `data`.
    pub open spec fn wf(&self, data: &PuzzleData) -> bool {
        &&& self.filed()
        &&& self.indexed(data@)
        &&& self.consistent(data@)
    }

    /// Whether this state is what connecting `edge` makes of the state
    /// `pre`. An edge that is connected already, or that names a vertex
    /// that the mesh does not have, changes nothing. Any other edge is
    /// added behind the connected edges; each triangle that has it asks
    /// for one edge less; those that ask for none by then are added behind
    /// the unlocked triangles, in the order of their indices, and their
    /// edges become permanent.
    pub open spec fn connects(&self, pre: &PuzzleState, m: Mesh, edge: (u32, u32)) -> bool {
        let e = canonical(edge);
        let done = completing(m.incident(e), pre.reqs());
        if pre.connected().contains(e) || e.1 >= m.vertices.len() {
            *self == *pre
        } else {
            &&& self.connected() == pre.connected().push(e)
            &&& self.reqs().len() == pre.reqs().len()
            &&& forall|t: int|
                0 <= t < self.reqs().len() ==> #[trigger] self.reqs()[t] == if m.triangles[t].has_edge(
                    e,
                ) {
                    pre.reqs()[t] - 1
                } else {
                    pre.reqs()[t] as int
                }
            &&& self.unlocked() == pre.unlocked() + done
            &&& self.permanent() == pre.permanent().union(edges_of_all(m, done))
        }
    }
}

/// The vertices that `flags` marks are those all of whose mesh edges are
/// permanent.
proof fn lemma_flags(
    edges: Seq<(u32, u32)>,
    by_vertex: Seq<Vec<(u32, u32)>>,
    flags: Seq<bool>,
    m: Mesh,
    v: u32,
)
    requires
        permanence(edges, by_vertex, flags, m),
        m.edges_at(v).finite(),
        v < m.vertices.len(),
    ensures
        flags[v as int] <==> m.edges_at(v).subset_of(edges.to_set()),
        by_vertex[v as int]@.to_set() == Set::new(
            |e: (u32, u32)| edges.to_set().contains(e) && touches(e, v),
        ),
        by_vertex[v as int]@.len() <= m.edges_at(v).len(),
{
    let list = by_vertex[v as int]@;
    let at = m.edges_at(v);
    let filed = Set::new(|e: (u32, u32)| edges.to_set().contains(e) && touches(e, v));
    list.unique_seq_to_set();
    assert forall|e: (u32, u32)| list.to_set().contains(e) <==> filed.contains(e) by {
        assert(by_vertex[v as int]@.contains(e) <==> edges.contains(e) && meets(e, v as int));
    }
    assert(list.to_set() =~= filed);
    assert forall|e: (u32, u32)| list.to_set().contains(e) implies at.contains(e) by {
        assert(by_vertex[v as int]@.contains(e) <==> edges.contains(e) && meets(e, v as int));
        let i = choose|i: int| 0 <= i < edges.len() && edges[i] == e;
        assert(m.is_edge(edges[i]));
    }
    assert(list.to_set().subset_of(at));
    vstd::set_lib::lemma_len_subset(list.to_set(), at);
    assert(flags[v as int] <==> list.len() == degree(m, v as int));
    if flags[v as int] {
        vstd::set_lib::lemma_subset_equality(list.to_set(), at);
        assert(at.subset_of(edges.to_set()));
    }
    if at.subset_of(edges.to_set()) {
        assert forall|e: (u32, u32)| at.contains(e) implies list.to_set().contains(e) by {
            assert(edges.to_set().contains(e));
            assert(by_vertex[v as int]@.contains(e) <==> edges.contains(e) && meets(e, v as int));
        }
        assert(list.to_set() =~= at);
    }
}

/// Makes the mesh edge `e` permanent: files it under both its endpoints,
/// and marks each endpoint all of whose mesh edges are permanent by then.
fn mark_permanent(
    edges: &mut Vec<(u32, u32)>,
    by_vertex: &mut Vec<Vec<(u32, u32)>>,
    flags: &mut Vec<bool>,
    data: &PuzzleData,
    e: (u32, u32),
)
    requires
        data.wf(),
        permanence(old(edges)@, old(by_vertex)@, old(flags)@, data@),
        data@.is_edge(e),
    ensures
        permanence(final(edges)@, final(by_vertex)@, final(flags)@, data@),
        final(edges)@.to_set() == old(edges)@.to_set().insert(e),
{
    let ghost m = data@;
    let ghost edges0 = edges@;
    let ghost lists0 = by_vertex@;
    let ghost flags0 = flags@;
    proof {
        data.lemma_edges_in_range();
        assert(lists0[e.0 as int]@.contains(e) <==> edges0.contains(e) && meets(e, e.0 as int));
    }
    if find_edge(&by_vertex[e.0 as usize], e).is_none() {
        edges.push(e);
        by_vertex[e.0 as usize].push(e);
        by_vertex[e.1 as usize].push(e);
        let low_done = by_vertex[e.0 as usize].len() == data.num_edges_from_vertex(e.0);
        flags.set(e.0 as usize, low_done);
        let high_done = by_vertex[e.1 as usize].len() == data.num_edges_from_vertex(e.1);
        flags.set(e.1 as usize, high_done);
        proof {
            let edges1 = edges@;
            let lists1 = by_vertex@;
            let flags1 = flags@;
            assert(edges1 == edges0.push(e));
            assert forall|x: (u32, u32)| edges1.contains(x) <==> edges0.contains(x) || x == e by {
                if edges0.contains(x) {
                    let i = choose|i: int| 0 <= i < edges0.len() && edges0[i] == x;
                    assert(edges1[i] == x);
                }
                assert(edges1[edges0.len() as int] == e);
            }
            assert(edges1.to_set() =~= edges0.to_set().insert(e));
            assert forall|i: int| 0 <= i < edges1.len() implies m.is_edge(#[trigger] edges1[i])
                && edges1[i].0 < edges1[i].1 < m.vertices.len() by {
                if i < edges0.len() {
                    assert(edges1[i] == edges0[i]);
                }
            }
            assert forall|v: int| 0 <= v < lists1.len() implies (#[trigger] lists1[v])@.no_duplicates() by {
                assert(lists0[v]@.no_duplicates());
                assert(lists0[v]@.contains(e) <==> edges0.contains(e) && meets(e, v));
                if v == e.0 || v == e.1 {
                    assert(lists1[v]@ == lists0[v]@.push(e));
                }
            }
            assert forall|v: int, x: (u32, u32)| 0 <= v < lists1.len() implies (
            #[trigger] lists1[v]@.contains(x) <==> edges1.contains(x) && meets(x, v)) by {
                assert(lists0[v]@.contains(x) <==> edges0.contains(x) && meets(x, v));
                if v == e.0 || v == e.1 {
                    assert(lists1[v]@ == lists0[v]@.push(e));
                    if lists0[v]@.contains(x) {
                        let i = choose|i: int| 0 <= i < lists0[v]@.len() && lists0[v]@[i] == x;
                        assert(lists1[v]@[i] == x);
                    }
                    assert(lists1[v]@[lists0[v]@.len() as int] == e);
                } else {
                    assert(lists1[v] == lists0[v]);
                }
            }
            assert forall|v: int| 0 <= v < flags1.len() implies (#[trigger] flags1[v]
                <==> lists1[v]@.len() == degree(m, v)) by {
                assert(flags0[v] <==> lists0[v]@.len() == degree(m, v));
            }
        }
    } else {
        proof {
            assert(edges0.to_set().contains(e));
            assert(edges0.to_set() =~= edges0.to_set().insert(e));
        }
    }
}

impl PuzzleState {
    /// The state at the start of a session: nothing is connected, every
    /// triangle still asks for its three edges, and only the vertices that
    /// no mesh edge touches are permanent.
    pub fn from_data(data: &PuzzleData) -> (r: PuzzleState)
        requires
            data.wf(),
        ensures
            r.wf(data),
            r.connected() == Seq::<(u32, u32)>::empty(),
            r.unlocked() == Seq::<usize>::empty(),
            r.permanent() == Set::<(u32, u32)>::empty(),
            r.reqs().len() == data@.triangles.len(),
            forall|t: int| 0 <= t < r.reqs().len() ==> r.reqs()[t] == 3,
    {
        let ghost m = data@;
        let triangle_count = data.num_triangles();
        let vertex_count = data.num_vertices();
        let mut triangle_reqs: Vec<u32> = Vec::new();
        let mut t: usize = 0;
        while t < triangle_count
            invariant
                t <= triangle_count,
                triangle_reqs@.len() == t,
                forall|k: int| 0 <= k < t ==> triangle_reqs@[k] == 3,
            decreases triangle_count - t,
        {
            triangle_reqs.push(3);
            t += 1;
        }
        let mut connected_edges_by_vertex: Vec<Vec<(u32, u32)>> = Vec::new();
        let mut permanent_edges_by_vertex: Vec<Vec<(u32, u32)>> = Vec::new();
        let mut permanent_vertices: Vec<bool> = Vec::new();
        let mut v: usize = 0;
        while v < vertex_count
            invariant
                v <= vertex_count,
                vertex_count == m.vertices.len(),
                m == data@,
                data.wf(),
                connected_edges_by_vertex@.len() == v,
                permanent_edges_by_vertex@.len() == v,
                permanent_vertices@.len() == v,
                forall|k: int| 0 <= k < v ==> (#[trigger] connected_edges_by_vertex@[k])@.len() == 0,
                forall|k: int| 0 <= k < v ==> (#[trigger] permanent_edges_by_vertex@[k])@.len() == 0,
                forall|k: int| 0 <= k < v ==> (#[trigger] permanent_vertices@[k] <==> degree(m, k) == 0),
            decreases vertex_count - v,
        {
            connected_edges_by_vertex.push(Vec::new());
            permanent_edges_by_vertex.push(Vec::new());
            let isolated = if v <= u32::MAX as usize {
                data.num_edges_from_vertex(v as u32) == 0
            } else {
                true
            };
            permanent_vertices.push(isolated);
            v += 1;
        }
        let r = PuzzleState {
            triangle_reqs,
            unlocked_triangles: Vec::new(),
            connected_edges: Vec::new(),
            connected_edges_by_vertex,
            permanent_edges_by_vertex,
            permanent_edges: Vec::new(),
            permanent_vertices,
        };
        proof {
            assert(r.permanent() =~= Set::<(u32, u32)>::empty());
            assert(r.indexed(m));
            r.lemma_permanent_vertices(data);
        }
        r
    }

    /// With the reverse indices in order, the permanent vertices are the
    /// vertices all of whose mesh edges are permanent.
    proof fn lemma_permanent_vertices(&self, data: &PuzzleData)
        requires
            data.wf(),
            self.indexed(data@),
        ensures
            forall|v: u32| #[trigger]
                self.permanent_vertices().contains(v) <==> v < data@.vertices.len()
                    && data@.edges_at(v).subset_of(self.permanent()),
            forall|e: (u32, u32)| #[trigger] self.permanent().contains(e) ==> data@.is_edge(e),
    {
        data.lemma_edges_at_finite();
        assert forall|v: u32| #[trigger]
            self.permanent_vertices().contains(v) <==> v < data@.vertices.len() && data@.edges_at(
                v,
            ).subset_of(self.permanent()) by {
            if v < data@.vertices.len() {
                lemma_flags(
                    self.permanent_edges@,
                    self.permanent_edges_by_vertex@,
                    self.permanent_vertices@,
                    data@,
                    v,
                );
            }
        }
        assert forall|e: (u32, u32)| #[trigger] self.permanent().contains(e) implies data@.is_edge(
            e,
        ) by {
            let i = choose|i: int|
                0 <= i < self.permanent_edges@.len() && self.permanent_edges@[i] == e;
            assert(data@.is_edge(self.permanent_edges@[i]));
        }
    }
}

impl PuzzleState {
    /// Whether this state is what disconnecting `edge` makes of the state
    /// `pre`, permanent or not. An edge that is not connected changes
    /// nothing. A connected edge leaves the connected edges; each triangle
    /// that has it asks for one edge more and, where it was unlocked, leaves
    /// the unlocked triangles. What was permanent stays permanent.
    pub open spec fn disconnects(&self, pre: &PuzzleState, m: Mesh, edge: (u32, u32)) -> bool {
        let e = canonical(edge);
        if !pre.connected().contains(e) {
            *self == *pre
        } else {
            &&& self.connected() == without(pre.connected(), e)
            &&& self.reqs().len() == pre.reqs().len()
            &&& forall|t: int|
                0 <= t < self.reqs().len() ==> #[trigger] self.reqs()[t] == if m.triangles[t].has_edge(
                    e,
                ) {
                    pre.reqs()[t] + 1
                } else {
                    pre.reqs()[t] as int
                }
            &&& self.unlocked() == minus(pre.unlocked(), m.incident(e))
            &&& self.permanent() == pre.permanent()
            &&& self.permanent_vertices() == pre.permanent_vertices()
        }
    }

    /// Disconnects an edge, given by its endpoints in either order, whether
    /// it is permanent or not. A triangle that was unlocked and has the
    /// edge is locked again.
    pub fn disconnect_edge(&mut self, data: &PuzzleData, edge: &(u32, u32))
        requires
            data.wf(),
            old(self).wf(data),
        ensures
            final(self).wf(data),
            final(self).disconnects(old(self), data@, *edge),
    {
        let ghost m = data@;
        let ghost pre = *self;
        let e = canonical_edge(edge);
        let ghost conn0 = self.connected_edges@;
        let ghost filed0 = self.connected_edges_by_vertex@;
        if e.1 as usize >= self.connected_edges_by_vertex.len() {
            proof {
                if conn0.contains(e) {
                    let i = choose|i: int| 0 <= i < conn0.len() && conn0[i] == e;
                    assert(conn0[i].1 < m.vertices.len());
                }
            }
            return ;
        }
        assert(filed0[e.0 as int]@.contains(e) <==> conn0.contains(e) && meets(e, e.0 as int));
        if find_edge(&self.connected_edges_by_vertex[e.0 as usize], e).is_none() {
            return ;
        }
        remove_edge(&mut self.connected_edges, e);
        remove_edge(&mut self.connected_edges_by_vertex[e.0 as usize], e);
        if e.0 != e.1 {
            remove_edge(&mut self.connected_edges_by_vertex[e.1 as usize], e);
        }
        let ghost conn1 = self.connected_edges@;
        let ghost filed1 = self.connected_edges_by_vertex@;
        proof {
            lemma_without(conn0, e);
            assert forall|i: int| 0 <= i < conn1.len() implies (#[trigger] conn1[i]).0 <= conn1[i].1
                < m.vertices.len() by {
                assert(conn1.contains(conn1[i]));
                assert(conn0.contains(conn1[i]));
                let j = choose|j: int| 0 <= j < conn0.len() && conn0[j] == conn1[i];
                assert(conn0[j].1 < m.vertices.len());
            }
            assert forall|v: int| 0 <= v < filed1.len() implies (#[trigger] filed1[v])@.no_duplicates()
                && (forall|x: (u32, u32)|
                filed1[v]@.contains(x) <==> conn1.contains(x) && meets(x, v)) by {
                assert(filed0[v]@.no_duplicates());
                assert(filed0[v]@.contains(e) <==> conn0.contains(e) && meets(e, v));
                if !(v == e.0 || v == e.1) {
                    assert(filed1[v] == filed0[v]);
                }
                assert forall|x: (u32, u32)|
                    filed1[v]@.contains(x) <==> conn1.contains(x) && meets(x, v) by {
                    assert(filed0[v]@.contains(x) <==> conn0.contains(x) && meets(x, v));
                }
            }
            assert(connection(conn1, filed1, m.vertices.len()));
        }
        let none: Vec<usize> = Vec::new();
        let list: &Vec<usize> = match data.triangles_with_edge(&e) {
            Some(l) => l,
            None => &none,
        };
        let ghost inc = m.incident(e);
        let ghost reqs0 = pre.triangle_reqs@;
        let ghost unl0 = pre.unlocked_triangles@;
        proof {
            assert(list@ =~= inc);
            data.lemma_edges_at_finite();
            lemma_incident_among(m, e, m.triangles.len() as int);
            assert(inc.take(0) =~= Seq::<usize>::empty());
            lemma_minus_nothing(unl0);
            assert forall|j: int| 0 <= j < inc.len() implies (#[trigger] inc[j]) < m.triangles.len()
                && m.triangles[inc[j] as int].has_edge(e) && reqs0[inc[j] as int] <= 2 by {
                assert(inc.contains(inc[j]));
                let t = inc[j] as int;
                assert(reqs0[t] == missing(m.triangles[t], conn0));
                lemma_missing_without(m.triangles[t], conn0, e);
            }
        }
        let mut k: usize = 0;
        while k < list.len()
            invariant
                k <= list.len(),
                list@ == inc,
                inc.no_duplicates(),
                forall|j: int|
                    0 <= j < inc.len() ==> (#[trigger] inc[j]) < m.triangles.len()
                        && m.triangles[inc[j] as int].has_edge(e) && reqs0[inc[j] as int] <= 2,
                reqs0.len() == m.triangles.len(),
                self.triangle_reqs@.len() == reqs0.len(),
                forall|t: usize|
                    t < reqs0.len() ==> #[trigger] self.triangle_reqs@[t as int] == if inc.take(
                        k as int,
                    ).contains(t) {
                        reqs0[t as int] + 1
                    } else {
                        reqs0[t as int] as int
                    },
                unl0.no_duplicates(),
                forall|t: usize| #[trigger]
                    unl0.contains(t) <==> t < m.triangles.len() && reqs0[t as int] == 0,
                self.unlocked_triangles@ == minus(unl0, inc.take(k as int)),
                self.connected_edges@ == conn1,
                self.connected_edges_by_vertex@ == filed1,
                self.permanent_edges == pre.permanent_edges,
                self.permanent_edges_by_vertex == pre.permanent_edges_by_vertex,
                self.permanent_vertices == pre.permanent_vertices,
            decreases list.len() - k,
        {
            let t = list[k];
            let ghost seen = inc.take(k as int);
            proof {
                assert(inc.take(k + 1) =~= seen.push(t));
                lemma_push(seen, t);
                lemma_minus(unl0, seen);
                lemma_without(minus(unl0, seen), t);
                lemma_without_minus(unl0, seen, t);
                if seen.contains(t) {
                    let j = choose|j: int| 0 <= j < seen.len() && seen[j] == t;
                    assert(inc[j] == inc[k as int]);
                }
                assert(self.triangle_reqs@[t as int] == reqs0[t as int]);
            }
            if self.triangle_reqs[t] == 0 {
                remove_index(&mut self.unlocked_triangles, t);
            }
            let more: u32 = self.triangle_reqs[t] + 1;
            self.triangle_reqs.set(t, more);
            k += 1;
        }
        proof {
            assert(inc.take(k as int) =~= inc);
            lemma_minus(unl0, inc);
            assert forall|t: int| 0 <= t < m.triangles.len() implies #[trigger] self.reqs()[t]
                == missing(m.triangles[t], self.connected()) && self.reqs()[t]
                == if m.triangles[t].has_edge(e) {
                pre.reqs()[t] + 1
            } else {
                pre.reqs()[t] as int
            } by {
                let u = t as usize;
                assert(pre.reqs()[t] == missing(m.triangles[t], conn0));
                lemma_missing_without(m.triangles[t], conn0, e);
                assert(inc.contains(u) <==> (u < m.triangles.len() && m.triangles[u as int].has_edge(
                    e,
                )));
                assert(self.triangle_reqs@[u as int] == if inc.contains(u) {
                    reqs0[u as int] + 1
                } else {
                    reqs0[u as int] as int
                });
            }
            assert forall|t: usize| #[trigger]
                self.unlocked().contains(t) <==> t < m.triangles.len() && self.reqs()[t as int]
                    == 0 by {
                assert(unl0.contains(t) <==> t < m.triangles.len() && reqs0[t as int] == 0);
                if t < m.triangles.len() {
                    assert(inc.contains(t) <==> m.triangles[t as int].has_edge(e));
                    assert(self.reqs()[t as int] == if inc.contains(t) {
                        reqs0[t as int] + 1
                    } else {
                        reqs0[t as int] as int
                    });
                }
            }
            assert forall|t: usize, x: (u32, u32)|
                self.unlocked().contains(t) && #[trigger] m.triangles[t as int].has_edge(
                    x,
                ) implies self.permanent().contains(x) by {
                assert(pre.unlocked().contains(t) && m.triangles[t as int].has_edge(x));
                assert(pre.permanent().contains(x));
            }
            assert(self.permanent() == pre.permanent());
            assert(self.permanent_vertices() == pre.permanent_vertices());
            assert(self.consistent(m));
        }
    }

    /// Whether this state is what disconnecting `edge` makes of the state
    /// `pre` where permanent edges are kept: a permanent edge changes
    /// nothing, any other edge is disconnected.
    pub open spec fn releases(&self, pre: &PuzzleState, m: Mesh, edge: (u32, u32)) -> bool {
        if pre.permanent().contains(canonical(edge)) {
            *self == *pre
        } else {
            self.disconnects(pre, m, edge)
        }
    }

    /// Disconnects an edge, given by its endpoints in either order, unless
    /// it is permanent: a permanent edge stays connected, and no unlocked
    /// triangle is locked again.
    pub fn disconnect_edge_unless_permanent(&mut self, data: &PuzzleData, edge: &(u32, u32))
        requires
            data.wf(),
            old(self).wf(data),
        ensures
            final(self).wf(data),
            final(self).releases(old(self), data@, *edge),
    {
        if !self.is_permanent_edge(data, edge) {
            self.disconnect_edge(data, edge);
        }
    }

    /// Tells whether an edge, given by its endpoints in either order, is
    /// permanent.
    pub fn is_permanent_edge(&self, data: &PuzzleData, edge: &(u32, u32)) -> (r: bool)
        requires
            data.wf(),
            self.wf(data),
        ensures
            r == self.permanent().contains(canonical(*edge)),
    {
        let e = canonical_edge(edge);
        proof {
            data.lemma_edges_in_range();
            if self.permanent().contains(e) {
                assert(data@.is_edge(e));
            }
        }
        if e.0 as usize >= self.permanent_edges_by_vertex.len() {
            return false;
        }
        assert(self.permanent_edges_by_vertex@[e.0 as int]@.contains(e)
            <==> self.permanent_edges@.contains(e) && meets(e, e.0 as int));
        find_edge(&self.permanent_edges_by_vertex[e.0 as usize], e).is_some()
    }

    /// Connects an edge, given by its endpoints in either order.
    pub fn connect_edge(&mut self, data: &PuzzleData, edge: &(u32, u32))
        requires
            data.wf(),
            old(self).wf(data),
        ensures
            final(self).wf(data),
            final(self).connects(old(self), data@, *edge),
    {
        let ghost m = data@;
        let ghost pre = *self;
        let e = canonical_edge(edge);
        if e.1 as usize >= self.connected_edges_by_vertex.len() {
            return ;
        }
        let ghost conn0 = self.connected_edges@;
        let ghost filed0 = self.connected_edges_by_vertex@;
        assert(filed0[e.0 as int]@.contains(e) <==> conn0.contains(e) && meets(e, e.0 as int));
        if find_edge(&self.connected_edges_by_vertex[e.0 as usize], e).is_some() {
            return ;
        }
        self.connected_edges.push(e);
        self.connected_edges_by_vertex[e.0 as usize].push(e);
        if e.0 != e.1 {
            self.connected_edges_by_vertex[e.1 as usize].push(e);
        }
        let ghost conn1 = self.connected_edges@;
        let ghost filed1 = self.connected_edges_by_vertex@;
        proof {
            lemma_push(conn0, e);
            assert forall|i: int| 0 <= i < conn1.len() implies (#[trigger] conn1[i]).0 <= conn1[i].1
                < m.vertices.len() by {
                if i < conn0.len() {
                    assert(conn1[i] == conn0[i]);
                }
            }
            assert forall|v: int| 0 <= v < filed1.len() implies (#[trigger] filed1[v])@.no_duplicates()
                && (forall|x: (u32, u32)|
                filed1[v]@.contains(x) <==> conn1.contains(x) && meets(x, v)) by {
                assert(filed0[v]@.no_duplicates());
                assert(filed0[v]@.contains(e) <==> conn0.contains(e) && meets(e, v));
                if v == e.0 || v == e.1 {
                    assert(filed1[v]@ == filed0[v]@.push(e));
                    lemma_push(filed0[v]@, e);
                } else {
                    assert(filed1[v] == filed0[v]);
                }
                assert forall|x: (u32, u32)|
                    filed1[v]@.contains(x) <==> conn1.contains(x) && meets(x, v) by {
                    assert(filed0[v]@.contains(x) <==> conn0.contains(x) && meets(x, v));
                }
            }
            assert(connection(conn1, filed1, m.vertices.len()));
        }
        let none: Vec<usize> = Vec::new();
        let list: &Vec<usize> = match data.triangles_with_edge(&e) {
            Some(l) => l,
            None => &none,
        };
        let ghost inc = m.incident(e);
        let ghost reqs0 = pre.triangle_reqs@;
        let ghost unl0 = pre.unlocked_triangles@;
        let ghost perm0 = pre.permanent_edges@.to_set();
        proof {
            assert(list@ =~= inc);
            data.lemma_edges_at_finite();
            lemma_incident_among(m, e, m.triangles.len() as int);
            lemma_completing_push(Seq::empty(), 0, reqs0);
            assert(inc.take(0) =~= Seq::<usize>::empty());
            assert(unl0 + Seq::<usize>::empty() =~= unl0);
            assert(edges_of_all(m, Seq::<usize>::empty()) =~= Set::empty());
            assert(perm0.union(Set::empty()) =~= perm0);
            assert forall|j: int| 0 <= j < inc.len() implies (#[trigger] inc[j]) < m.triangles.len()
                && m.triangles[inc[j] as int].has_edge(e) && reqs0[inc[j] as int] >= 1 by {
                assert(inc.contains(inc[j]));
                let t = inc[j] as int;
                assert(reqs0[t] == missing(m.triangles[t], conn0));
                lemma_missing_push(m.triangles[t], conn0, e);
            }
        }
        let mut k: usize = 0;
        while k < list.len()
            invariant
                k <= list.len(),
                data.wf(),
                m == data@,
                m.valid(),
                list@ == inc,
                inc.no_duplicates(),
                forall|j: int|
                    0 <= j < inc.len() ==> (#[trigger] inc[j]) < m.triangles.len()
                        && m.triangles[inc[j] as int].has_edge(e) && reqs0[inc[j] as int] >= 1,
                self.connected_edges@ == conn1,
                self.connected_edges_by_vertex@ == filed1,
                reqs0.len() == m.triangles.len(),
                self.triangle_reqs@.len() == reqs0.len(),
                forall|t: usize|
                    t < reqs0.len() ==> #[trigger] self.triangle_reqs@[t as int] == if inc.take(
                        k as int,
                    ).contains(t) {
                        reqs0[t as int] - 1
                    } else {
                        reqs0[t as int] as int
                    },
                self.unlocked_triangles@ == unl0 + completing(inc.take(k as int), reqs0),
                permanence(
                    self.permanent_edges@,
                    self.permanent_edges_by_vertex@,
                    self.permanent_vertices@,
                    m,
                ),
                self.permanent_edges@.to_set() == perm0.union(
                    edges_of_all(m, completing(inc.take(k as int), reqs0)),
                ),
            decreases list.len() - k,
        {
            let t = list[k];
            let ghost seen = inc.take(k as int);
            let ghost done = completing(seen, reqs0);
            proof {
                assert(inc.take(k + 1) =~= seen.push(t));
                lemma_push(seen, t);
                lemma_completing_push(seen, t, reqs0);
                if seen.contains(t) {
                    let j = choose|j: int| 0 <= j < seen.len() && seen[j] == t;
                    assert(inc[j] == inc[k as int]);
                }
                assert(self.triangle_reqs@[t as int] == reqs0[t as int]);
            }
            let left: u32 = self.triangle_reqs[t] - 1;
            self.triangle_reqs.set(t, left);
            if left == 0 {
                self.unlocked_triangles.push(t);
                let edges = data.triangle_edges(t);
                let ghost tri = m.triangles[t as int];
                proof {
                    assert(tri.has_edge(edges@[0]) && tri.has_edge(edges@[1]) && tri.has_edge(
                        edges@[2],
                    ));
                    assert(m.is_edge(edges@[0]) && m.is_edge(edges@[1]) && m.is_edge(edges@[2]));
                    assert((unl0 + done).push(t) =~= unl0 + done.push(t));
                }
                let ghost before = self.permanent_edges@.to_set();
                mark_permanent(
                    &mut self.permanent_edges,
                    &mut self.permanent_edges_by_vertex,
                    &mut self.permanent_vertices,
                    data,
                    edges[0],
                );
                mark_permanent(
                    &mut self.permanent_edges,
                    &mut self.permanent_edges_by_vertex,
                    &mut self.permanent_vertices,
                    data,
                    edges[1],
                );
                mark_permanent(
                    &mut self.permanent_edges,
                    &mut self.permanent_edges_by_vertex,
                    &mut self.permanent_vertices,
                    data,
                    edges[2],
                );
                proof {
                    let after = self.permanent_edges@.to_set();
                    let grown = perm0.union(edges_of_all(m, done.push(t)));
                    assert(before == perm0.union(edges_of_all(m, done)));
                    assert(after == before.insert(edges@[0]).insert(edges@[1]).insert(edges@[2]));
                    assert forall|x: (u32, u32)| after.contains(x) <==> grown.contains(x) by {
                        assert(tri.has_edge(x) <==> (x == edges@[0] || x == edges@[1] || x
                            == edges@[2]));
                        lemma_edges_of_all_push(m, done, t, x);
                    }
                    assert(after =~= grown);
                }
            } else {
                proof {
                    assert(self.permanent_edges@.to_set() =~= perm0.union(
                        edges_of_all(m, completing(inc.take(k + 1), reqs0)),
                    ));
                }
            }
            k += 1;
        }
        proof {
            assert(inc.take(k as int) =~= inc);
            let done = completing(inc, reqs0);
            lemma_completing(inc, reqs0);
            lemma_concat(unl0, done);
            self.lemma_permanent_vertices(data);
            assert forall|t: int| 0 <= t < m.triangles.len() implies #[trigger] self.reqs()[t]
                == missing(m.triangles[t], self.connected()) && self.reqs()[t]
                == if m.triangles[t].has_edge(e) {
                pre.reqs()[t] - 1
            } else {
                pre.reqs()[t] as int
            } by {
                let u = t as usize;
                assert(pre.reqs()[t] == missing(m.triangles[t], conn0));
                lemma_missing_push(m.triangles[t], conn0, e);
                assert(inc.contains(u) <==> (u < m.triangles.len() && m.triangles[u as int].has_edge(
                    e,
                )));
                assert(self.triangle_reqs@[u as int] == if inc.contains(u) {
                    reqs0[u as int] - 1
                } else {
                    reqs0[u as int] as int
                });
            }
            assert forall|t: usize| #[trigger]
                self.unlocked().contains(t) <==> t < m.triangles.len() && self.reqs()[t as int]
                    == 0 by {
                assert(pre.unlocked().contains(t) <==> t < m.triangles.len() && pre.reqs()[t as int]
                    == 0);
                if t < m.triangles.len() {
                    assert(inc.contains(t) <==> m.triangles[t as int].has_edge(e));
                    assert(self.reqs()[t as int] == if inc.contains(t) {
                        reqs0[t as int] - 1
                    } else {
                        reqs0[t as int] as int
                    });
                    if inc.contains(t) {
                        let j = choose|j: int| 0 <= j < inc.len() && inc[j] == t;
                        assert(reqs0[inc[j] as int] >= 1);
                    }
                } else {
                    if done.contains(t) {
                        let j = choose|j: int| 0 <= j < inc.len() && inc[j] == t;
                        assert(inc[j] < m.triangles.len());
                    }
                }
            }
            assert forall|x: usize| unl0.contains(x) implies !done.contains(x) by {
                assert(pre.unlocked().contains(x) <==> x < m.triangles.len() && pre.reqs()[x as int]
                    == 0);
            }
            assert(self.unlocked().no_duplicates());
            assert forall|t: usize, x: (u32, u32)|
                self.unlocked().contains(t) && #[trigger] m.triangles[t as int].has_edge(
                    x,
                ) implies self.permanent().contains(x) by {
                if unl0.contains(t) {
                    assert(pre.unlocked().contains(t) && m.triangles[t as int].has_edge(x));
                    assert(pre.permanent().contains(x));
                } else {
                    assert(done.contains(t));
                    let i = choose|i: int| 0 <= i < done.len() && done[i] == t;
                    assert(m.triangles[done[i] as int].has_edge(x));
                    assert(edges_of_all(m, done).contains(x));
                }
            }
            assert(self.consistent(m));
        }
    }
}

impl PuzzleState {
    /// Tells whether every triangle is unlocked.
    pub fn is_finished(&self) -> (r: bool)
        ensures
            r == (self.unlocked().len() == self.reqs().len()),
    {
        self.unlocked_triangles.len() == self.triangle_reqs.len()
    }

    /// The connected edges, in the order in which they were connected.
    pub fn get_connected_edges(&self) -> (r: &Vec<(u32, u32)>)
        ensures
            r@ == self.connected(),
    {
        &self.connected_edges
    }

    /// The unlocked triangles, in the order in which they were unlocked.
    pub fn get_unlocked_triangles(&self) -> (r: &Vec<usize>)
        ensures
            r@ == self.unlocked(),
    {
        &self.unlocked_triangles
    }

    /// For each triangle, how many of its edges are still to be connected.
    pub fn get_triangle_requirements(&self) -> (r: &Vec<u32>)
        ensures
            r@ == self.reqs(),
    {
        &self.triangle_reqs
    }

    /// The number of permanent edges that touch `vertex`; zero for an index
    /// that names no vertex.
    pub fn get_permanent_edges_for_vertex(&self, vertex: u32) -> (r: usize)
        requires
            self.filed(),
        ensures
            r == self.permanent_at(vertex).len(),
            self.permanent_at(vertex).finite(),
    {
        if (vertex as usize) < self.permanent_edges_by_vertex.len() {
            let list = &self.permanent_edges_by_vertex[vertex as usize];
            proof {
                list@.unique_seq_to_set();
                assert forall|e: (u32, u32)| list@.to_set().contains(e) <==> self.permanent_at(
                    vertex,
                ).contains(e) by {
                    assert(list@.contains(e) <==> self.permanent_edges@.contains(e) && meets(
                        e,
                        vertex as int,
                    ));
                }
                assert(list@.to_set() =~= self.permanent_at(vertex));
            }
            list.len()
        } else {
            proof {
                self.lemma_out_of_range(vertex);
            }
            0
        }
    }

    /// No edge of the state touches an index that names no vertex.
    proof fn lemma_out_of_range(&self, vertex: u32)
        requires
            self.filed(),
            vertex >= self.connected_edges_by_vertex@.len(),
        ensures
            self.permanent_at(vertex) == Set::<(u32, u32)>::empty(),
            self.connected_at(vertex) == Set::<(u32, u32)>::empty(),
            self.loose_at(vertex) == Set::<(u32, u32)>::empty(),
    {
        let conn = self.connected_edges@;
        let perm = self.permanent_edges@;
        let filed = self.permanent_edges_by_vertex@;
        assert forall|e: (u32, u32)| !(conn.contains(e) && touches(e, vertex)) by {
            if conn.contains(e) {
                let i = choose|i: int| 0 <= i < conn.len() && conn[i] == e;
                assert(conn[i].0 <= conn[i].1 < filed.len());
            }
        }
        assert(self.connected_at(vertex) =~= Set::<(u32, u32)>::empty());
        assert(self.loose_at(vertex) =~= Set::<(u32, u32)>::empty());
        assert forall|e: (u32, u32)| !(perm.contains(e) && touches(e, vertex)) by {
            if perm.contains(e) && touches(e, vertex) {
                let i = choose|i: int| 0 <= i < perm.len() && perm[i] == e;
                assert(perm[i].0 < perm[i].1 < filed.len());
            }
        }
        assert(self.permanent_at(vertex) =~= Set::<(u32, u32)>::empty());
    }
}

impl PuzzleState {
    /// The connected edges that touch `vertex` and are not permanent.
    fn loose_edges(&self, vertex: u32) -> (r: Vec<(u32, u32)>)
        requires
            self.filed(),
        ensures
            r@.no_duplicates(),
            r@.to_set() == self.loose_at(vertex),
            forall|x: (u32, u32)|
                #![trigger r@.contains(x)]
                r@.contains(x) <==> self.connected().contains(x) && touches(x, vertex)
                    && !self.permanent().contains(x),
    {
        let mut out: Vec<(u32, u32)> = Vec::new();
        if (vertex as usize) >= self.connected_edges_by_vertex.len() {
            proof {
                self.lemma_out_of_range(vertex);
                assert(out@.to_set() =~= self.loose_at(vertex));
                assert forall|x: (u32, u32)|
                    #![trigger out@.contains(x)]
                    !(self.connected().contains(x) && touches(x, vertex)
                        && !self.permanent().contains(x)) by {
                    assert(!self.loose_at(vertex).contains(x));
                }
            }
            return out;
        }
        let list = &self.connected_edges_by_vertex[vertex as usize];
        let fixed = &self.permanent_edges_by_vertex[vertex as usize];
        let mut k: usize = 0;
        proof {
            assert(list@.take(0) =~= Seq::<(u32, u32)>::empty());
            lemma_minus_push(Seq::empty(), (0u32, 0u32), fixed@);
        }
        while k < list.len()
            invariant
                k <= list.len(),
                out@ == minus(list@.take(k as int), fixed@),
            decreases list.len() - k,
        {
            let x = list[k];
            proof {
                assert(list@.take(k + 1) =~= list@.take(k as int).push(x));
                lemma_minus_push(list@.take(k as int), x, fixed@);
            }
            if find_edge(fixed, x).is_none() {
                out.push(x);
            }
            k += 1;
        }
        proof {
            assert(list@.take(k as int) =~= list@);
            lemma_minus(list@, fixed@);
            assert forall|x: (u32, u32)|
                #![trigger out@.contains(x)]
                out@.contains(x) <==> self.connected().contains(x) && touches(x, vertex)
                    && !self.permanent().contains(x) by {
                assert(list@.contains(x) <==> self.connected_edges@.contains(x) && meets(
                    x,
                    vertex as int,
                ));
                assert(fixed@.contains(x) <==> self.permanent_edges@.contains(x) && meets(
                    x,
                    vertex as int,
                ));
            }
            assert(out@.to_set() =~= self.loose_at(vertex));
        }
        out
    }

    /// The number of connected edges that touch `vertex` and are not
    /// permanent; zero for an index that names no vertex.
    pub fn get_non_permanent_edges_for_vertex(&self, vertex: u32) -> (r: usize)
        requires
            self.filed(),
        ensures
            r == self.loose_at(vertex).len(),
            self.loose_at(vertex).finite(),
            r == 0 <==> self.loose_at(vertex) == Set::<(u32, u32)>::empty(),
    {
        let loose = self.loose_edges(vertex);
        proof {
            loose@.unique_seq_to_set();
            if loose@.len() > 0 {
                assert(loose@.to_set().contains(loose@[0]));
            } else {
                assert(loose@.to_set() =~= Set::<(u32, u32)>::empty());
            }
        }
        loose.len()
    }

    /// Tells whether `vertex` is permanent: a vertex of the mesh all of
    /// whose mesh edges are permanent.
    pub fn is_permanent_vertex(&self, vertex: u32) -> (r: bool)
        ensures
            r == self.permanent_vertices().contains(vertex),
    {
        (vertex as usize) < self.permanent_vertices.len() && self.permanent_vertices[vertex as usize]
    }

    /// Tells whether `vertex` is permanent and no connected edge that
    /// touches it could still be disconnected.
    pub fn is_permanent_and_complete(&self, vertex: u32) -> (r: bool)
        requires
            self.filed(),
        ensures
            r == (self.permanent_vertices().contains(vertex) && self.loose_at(vertex) == Set::<
                (u32, u32),
            >::empty()),
    {
        self.is_permanent_vertex(vertex) && self.get_non_permanent_edges_for_vertex(vertex) == 0
    }

    /// Tells whether the player can still do something at `vertex`: some
    /// mesh edge that touches it is not permanent yet, or some connected
    /// edge that touches it can still be disconnected.
    pub fn should_be_interactable(&self, data: &PuzzleData, vertex: u32) -> (r: bool)
        requires
            data.wf(),
            self.wf(data),
        ensures
            r == self.interactable(data@, vertex),
    {
        let not_done = data.num_edges_from_vertex(vertex) > self.get_permanent_edges_for_vertex(
            vertex,
        );
        let has_non_permanent = self.get_non_permanent_edges_for_vertex(vertex) > 0;
        not_done || has_non_permanent
    }

    /// Whether this state is what letting go at `vertex` makes of the state
    /// `pre`: the connected edges that touch `vertex` and are not permanent
    /// leave, and nothing else changes but the requirements of their
    /// triangles.
    pub open spec fn disconnects_at(&self, pre: &PuzzleState, vertex: u32) -> bool {
        &&& self.connected() == settled(pre.connected(), pre.permanent(), vertex)
        &&& self.unlocked() == pre.unlocked()
        &&& self.permanent() == pre.permanent()
        &&& self.permanent_vertices() == pre.permanent_vertices()
    }

    /// Disconnects every edge that touches `vertex` and is not permanent.
    pub fn disconnect_from_vertex(&mut self, data: &PuzzleData, vertex: u32)
        requires
            data.wf(),
            old(self).wf(data),
        ensures
            final(self).wf(data),
            final(self).disconnects_at(old(self), vertex),
    {
        let ghost m = data@;
        let ghost pre = *self;
        let ghost conn0 = self.connected();
        let ghost perm0 = self.permanent();
        let complete = self.is_permanent_and_complete(vertex);
        let loose = self.loose_edges(vertex);
        proof {
            lemma_settled(conn0, perm0, vertex, loose@);
            lemma_minus_nothing(conn0);
            if complete {
                assert(loose@.to_set() =~= Set::<(u32, u32)>::empty());
                if loose@.len() > 0 {
                    assert(loose@.to_set().contains(loose@[0]));
                }
                assert(loose@ =~= Seq::<(u32, u32)>::empty());
            }
            assert(loose@.take(0) =~= Seq::<(u32, u32)>::empty());
        }
        if complete {
            return ;
        }
        let mut k: usize = 0;
        while k < loose.len()
            invariant
                k <= loose.len(),
                data.wf(),
                m == data@,
                self.wf(data),
                loose@.no_duplicates(),
                forall|x: (u32, u32)|
                    #![trigger loose@.contains(x)]
                    loose@.contains(x) <==> conn0.contains(x) && touches(x, vertex)
                        && !perm0.contains(x),
                pre.consistent(m),
                conn0 == pre.connected(),
                self.connected() == minus(conn0, loose@.take(k as int)),
                self.unlocked() == pre.unlocked(),
                self.permanent() == perm0,
                self.permanent_vertices() == pre.permanent_vertices(),
            decreases loose.len() - k,
        {
            let e = loose[k];
            let ghost seen = loose@.take(k as int);
            proof {
                assert(loose@.contains(e));
                assert(loose@.take(k + 1) =~= seen.push(e));
                let i = choose|i: int| 0 <= i < conn0.len() && conn0[i] == e;
                assert(conn0[i].0 <= conn0[i].1);
                assert(canonical(e) == e);
                lemma_minus(conn0, seen);
                if seen.contains(e) {
                    let j = choose|j: int| 0 <= j < seen.len() && seen[j] == e;
                    assert(loose@[j] == loose@[k as int]);
                }
                lemma_without_minus(conn0, seen, e);
                data.lemma_edges_at_finite();
                lemma_incident_among(m, e, m.triangles.len() as int);
                let unl = self.unlocked();
                assert forall|i: int| 0 <= i < unl.len() implies !m.incident(e).contains(
                    #[trigger] unl[i],
                ) by {
                    let t = unl[i];
                    assert(unl.contains(t));
                    if m.incident(e).contains(t) {
                        assert(m.triangles[t as int].has_edge(e));
                        assert(self.permanent().contains(e));
                    }
                }
                lemma_minus_disjoint(unl, m.incident(e));
            }
            self.disconnect_edge(data, &e);
            k += 1;
        }
        proof {
            assert(loose@.take(k as int) =~= loose@);
        }
    }
}

} // verus!
