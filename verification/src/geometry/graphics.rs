//! What the rendering backend is given, as far as integers say it: which
//! vertex stands at each corner, which palette entry colours it, which edges
//! are drawn as lines, which corners form unlocked triangles, and which
//! vertices carry a marker. Positions are looked up by vertex index by
//! whoever holds the coordinates.

use vstd::prelude::*;
use crate::geometry::mesh::{Mesh, Triangle};
use crate::geometry::PuzzleData;
use crate::puzzle_state::laws::lemma_permanent_at_most;
use crate::puzzle_state::PuzzleState;

verus! {

/// The vertex at corner `k` of a triangle, for `k` from 0 to 2.
pub open spec fn corner_vertex(tri: Triangle, k: int) -> u32 {
    if k == 0 {
        tri.v0
    } else if k == 1 {
        tri.v1
    } else {
        tri.v2
    }
}

/// A channel of a palette entry, for `k` from 0 to 2.
pub open spec fn channel(color: (u8, u8, u8), k: int) -> u8 {
    if k == 0 {
        color.0
    } else if k == 1 {
        color.1
    } else {
        color.2
    }
}

/// The vertex at each corner of each triangle, triangle by triangle.
pub open spec fn corner_vertices(m: Mesh) -> Seq<u32> {
    Seq::new(3 * m.triangles.len(), |i: int| corner_vertex(m.triangles[i / 3], i % 3))
}

/// The palette index at each corner of each triangle, triangle by triangle.
pub open spec fn corner_colors(m: Mesh) -> Seq<u32> {
    Seq::new(3 * m.triangles.len(), |i: int| m.triangles[i / 3].color)
}

/// The channels of the palette, entry by entry.
pub open spec fn palette(m: Mesh) -> Seq<u8> {
    Seq::new(3 * m.colors.len(), |i: int| channel(m.colors[i / 3], i % 3))
}

/// What is drawn of a puzzle whatever its state: made once for each puzzle.
#[derive(Debug)]
pub struct StaticGraphicsData {
    /// The number of vertices of the mesh.
    pub num_vertices: usize,
    /// The vertex at each corner: three for each triangle, so that a vertex
    /// occurs once for each triangle that has it.
    pub corner_vertices: Vec<u32>,
    /// The palette index at each corner: that of its triangle.
    pub corner_colors: Vec<u32>,
    /// The palette, three channels for each entry.
    pub palette: Vec<u8>,
}

impl StaticGraphicsData {
    /// The static data of a puzzle.
    pub fn from_data(data: &PuzzleData) -> (r: StaticGraphicsData)
        ensures
            r.num_vertices == data@.vertices.len(),
            r.corner_vertices@ == corner_vertices(data@),
            r.corner_colors@ == corner_colors(data@),
            r.palette@ == palette(data@),
    {
        let ghost m = data@;
        let mut corners: Vec<u32> = Vec::new();
        let mut colors: Vec<u32> = Vec::new();
        let count = data.num_triangles();
        let mut t: usize = 0;
        while t < count
            invariant
                t <= count,
                count == m.triangles.len(),
                m == data@,
                corners@.len() == 3 * t,
                colors@.len() == 3 * t,
                forall|i: int| 0 <= i < 3 * t ==> corners@[i] == corner_vertices(m)[i],
                forall|i: int| 0 <= i < 3 * t ==> colors@[i] == corner_colors(m)[i],
            decreases count - t,
        {
            let tri = data.triangle(t);
            corners.push(tri.v0);
            corners.push(tri.v1);
            corners.push(tri.v2);
            colors.push(tri.color);
            colors.push(tri.color);
            colors.push(tri.color);
            t += 1;
        }
        let mut flat: Vec<u8> = Vec::new();
        let entries = data.num_colors();
        let mut c: usize = 0;
        while c < entries
            invariant
                c <= entries,
                entries == m.colors.len(),
                m == data@,
                flat@.len() == 3 * c,
                forall|i: int| 0 <= i < 3 * c ==> flat@[i] == palette(m)[i],
            decreases entries - c,
        {
            let rgb = data.palette_entry(c);
            flat.push(rgb.0);
            flat.push(rgb.1);
            flat.push(rgb.2);
            c += 1;
        }
        assert(corners@ =~= corner_vertices(m));
        assert(colors@ =~= corner_colors(m));
        assert(flat@ =~= palette(m));
        StaticGraphicsData {
            num_vertices: data.num_vertices(),
            corner_vertices: corners,
            corner_colors: colors,
            palette: flat,
        }
    }
}

/// The marker of a vertex: a square of four corners and two triangles.
#[derive(Debug)]
pub struct PointQuad {
    /// The vertex that the marker is centred on.
    pub vertex: u32,
    /// Whether the marker is drawn larger, as for a selected vertex.
    pub enlarged: bool,
    /// For each of the four corners, how many edges the vertex still lacks.
    pub textures: Vec<usize>,
    /// The six corner indices of the two triangles.
    pub indices: Vec<u16>,
}

/// The corner indices of the two triangles of a marker whose first corner
/// has index `offset`.
pub open spec fn quad_indices(offset: int) -> Seq<int> {
    seq![offset, offset + 1, offset + 2, offset, offset + 2, offset + 3]
}

impl PointQuad {
    /// The marker of `vertex` with its first corner at index `offset`.
    pub fn new(vertex: u32, offset: u16, remaining: usize, enlarged: bool) -> (r: PointQuad)
        requires
            offset + 3 <= u16::MAX,
        ensures
            r.vertex == vertex,
            r.enlarged == enlarged,
            r.textures@ == seq![remaining, remaining, remaining, remaining],
            r.indices@.len() == 6,
            forall|i: int| 0 <= i < 6 ==> r.indices@[i] == quad_indices(offset as int)[i],
    {
        let indices: Vec<u16> = vec![
            offset,
            offset + 1,
            offset + 2,
            offset,
            offset + 2,
            offset + 3,
        ];
        let textures: Vec<usize> = vec![remaining, remaining, remaining, remaining];
        PointQuad { vertex, enlarged, textures, indices }
    }
}

/// Whether `v` is a vertex that a pointer with the proximity mask `near`
/// can pick: a vertex of the mesh that the mask holds and at which the
/// player can still do something.
pub open spec fn pickable(state: PuzzleState, m: Mesh, near: Seq<bool>, v: int) -> bool {
    0 <= v < m.vertices.len() && v < near.len() && v <= u32::MAX && near[v] && state.interactable(
        m,
        v as u32,
    )
}

impl PuzzleData {
    /// The first vertex that is near the pointer and at which the player
    /// can still do something. `near` says of each vertex, by its index,
    /// whether it lies within the threshold radius of the pointer; a vertex
    /// that `near` has no entry for is not near.
    pub fn get_vertex_near(&self, state: &PuzzleState, near: &Vec<bool>) -> (r: Option<u32>)
        requires
            self.wf(),
            state.wf(self),
        ensures
            match r {
                Some(v) => pickable(*state, self@, near@, v as int) && forall|j: int|
                    0 <= j < v ==> !pickable(*state, self@, near@, j),
                None => forall|j: int| !pickable(*state, self@, near@, j),
            },
    {
        let count = self.num_vertices();
        let mut idx: usize = 0;
        while idx < count && idx < near.len() && idx <= u32::MAX as usize
            invariant
                self.wf(),
                state.wf(self),
                count == self@.vertices.len(),
                forall|j: int| 0 <= j < idx ==> !pickable(*state, self@, near@, j),
            decreases count - idx,
        {
            if near[idx] && state.should_be_interactable(self, idx as u32) {
                return Some(idx as u32);
            }
            idx += 1;
        }
        None
    }
}

/// What the pointer adds to a frame.
#[derive(Debug)]
pub struct InteractiveFeatures {
    /// The vertex from which a line to the pointer is drawn while an edge is
    /// being dragged.
    pub active_edge: Option<u32>,
    /// The vertices that are drawn larger: the one selected last and the
    /// one under the pointer.
    pub selected_vertices: Vec<u32>,
}

/// The vertex under a pointer with the proximity mask `near`, if there is a
/// pointer and a vertex that it can pick: the first such vertex.
pub open spec fn pointer_vertex(state: PuzzleState, m: Mesh, pointer: Option<Seq<bool>>) -> Option<
    u32,
> {
    match pointer {
        Some(near) => if exists|v: int| pickable(state, m, near, v) {
            Some(first_pickable(state, m, near) as u32)
        } else {
            None
        },
        None => None,
    }
}

/// The first vertex that the pointer can pick.
pub open spec fn first_pickable(state: PuzzleState, m: Mesh, near: Seq<bool>) -> int {
    choose|v: int|
        pickable(state, m, near, v) && forall|j: int| 0 <= j < v ==> !pickable(state, m, near, j)
}

/// The selected vertices: the one selected last, then the one under the
/// pointer unless it is the same.
pub open spec fn selection(last: Option<u32>, under: Option<u32>) -> Seq<u32> {
    match (last, under) {
        (Some(a), Some(b)) => if a == b {
            seq![a]
        } else {
            seq![a, b]
        },
        (Some(a), None) => seq![a],
        (None, Some(b)) => seq![b],
        (None, None) => Seq::empty(),
    }
}

/// The vertex from which a line to the pointer is drawn: the vertex
/// selected last, where there is a pointer and the mesh has that vertex.
pub open spec fn drag_origin(m: Mesh, last: Option<u32>, pointer: bool) -> Option<u32> {
    match last {
        Some(v) => if pointer && v < m.vertices.len() {
            Some(v)
        } else {
            None
        },
        None => None,
    }
}

/// The proximity mask of a pointer, if there is a pointer.
pub open spec fn mask(pointer: Option<Vec<bool>>) -> Option<Seq<bool>> {
    match pointer {
        Some(near) => Some(near@),
        None => None,
    }
}

impl InteractiveFeatures {
    /// The interactive features of a frame. `last_vertex` is the vertex
    /// selected last, if any; `curr_pointer` is the proximity mask of the
    /// pointer, if there is a pointer.
    pub fn from_data_and_interact_info(
        data: &PuzzleData,
        state: &PuzzleState,
        last_vertex: &Option<u32>,
        curr_pointer: &Option<Vec<bool>>,
    ) -> (r: InteractiveFeatures)
        requires
            data.wf(),
            state.wf(data),
        ensures
            r.selected_vertices@ == selection(
                *last_vertex,
                pointer_vertex(*state, data@, mask(*curr_pointer)),
            ),
            r.active_edge == drag_origin(data@, *last_vertex, curr_pointer.is_some()),
    {
        let under: Option<u32> = match curr_pointer {
            Some(near) => {
                let found = data.get_vertex_near(state, near);
                proof {
                    lemma_first_pickable(*state, data@, near@, found);
                }
                found
            },
            None => None,
        };
        let mut selected: Vec<u32> = Vec::new();
        if let Some(v) = last_vertex {
            selected.push(*v);
        }
        if let Some(v) = under {
            let fresh = match last_vertex {
                Some(w) => *w != v,
                None => true,
            };
            if fresh {
                selected.push(v);
            }
        }
        let active_edge = match last_vertex {
            Some(v) => if curr_pointer.is_some() && (*v as usize) < data.num_vertices() {
                Some(*v)
            } else {
                None
            },
            None => None,
        };
        assert(selected@ =~= selection(*last_vertex, under));
        InteractiveFeatures { active_edge, selected_vertices: selected }
    }
}

/// What `get_vertex_near` finds is the vertex under the pointer.
pub proof fn lemma_first_pickable(state: PuzzleState, m: Mesh, near: Seq<bool>, found: Option<u32>)
    requires
        match found {
            Some(v) => pickable(state, m, near, v as int) && forall|j: int|
                0 <= j < v ==> !pickable(state, m, near, j),
            None => forall|j: int| !pickable(state, m, near, j),
        },
    ensures
        found == pointer_vertex(state, m, Some(near)),
{
    match found {
        Some(v) => {
            let w = first_pickable(state, m, near);
            assert(pickable(state, m, near, v as int));
            if w < v {
                assert(!pickable(state, m, near, w));
            }
            if v < w {
                assert(!pickable(state, m, near, v as int));
            }
        },
        None => {},
    }
}

/// How many mesh edges at `v` are not permanent yet.
pub open spec fn remaining(state: PuzzleState, m: Mesh, v: u32) -> int {
    m.edges_at(v).len() - state.permanent_at(v).len()
}

/// The vertices among the first `n` that carry a marker, in increasing
/// order: those at which the player can still do something.
pub open spec fn marked_among(state: PuzzleState, m: Mesh, n: int) -> Seq<u32>
    decreases n,
{
    if n <= 0 {
        Seq::empty()
    } else if state.interactable(m, (n - 1) as u32) {
        marked_among(state, m, n - 1).push((n - 1) as u32)
    } else {
        marked_among(state, m, n - 1)
    }
}

/// How many vertices of the mesh have an index of 32 bits. No edge touches
/// another vertex.
pub open spec fn indexable(m: Mesh) -> int {
    if m.vertices.len() <= u32::MAX {
        m.vertices.len() as int
    } else {
        u32::MAX + 1
    }
}

/// The vertices that carry a marker, in increasing order.
pub open spec fn marked(state: PuzzleState, m: Mesh) -> Seq<u32> {
    marked_among(state, m, indexable(m))
}

/// Whether the frame of the mesh `m` in the state `state` can be given
/// with corner indices of 16 bits: the four corners of every marker and
/// the three corners of every unlocked triangle have such an index.
pub open spec fn showable(state: PuzzleState, m: Mesh) -> bool {
    &&& 4 * marked(state, m).len() <= 0x1_0000
    &&& forall|i: int|
        0 <= i < state.unlocked().len() ==> 3 * (#[trigger] state.unlocked()[i]) + 2 <= u16::MAX
}

/// Among more vertices no fewer are marked.
pub proof fn lemma_marked_grows(state: PuzzleState, m: Mesh, k: int, n: int)
    requires
        0 <= k <= n,
    ensures
        marked_among(state, m, k).len() <= marked_among(state, m, n).len(),
        marked_among(state, m, k).len() <= k,
    decreases n - k, k,
{
    if k < n {
        lemma_marked_grows(state, m, k, n - 1);
    } else if k > 0 {
        lemma_marked_grows(state, m, k - 1, k - 1);
    }
}

/// What is drawn of a puzzle in its present state: made anew for each frame.
#[derive(Debug)]
pub struct DynamicGraphicsData {
    /// The corners of the unlocked triangles, three for each, as indices
    /// into the corners of the static data.
    pub triangle_indices: Vec<u16>,
    /// The connected edges, each drawn as a line between its two vertices.
    pub line_edges: Vec<(u32, u32)>,
    /// The vertex from which one more line is drawn to the pointer, if an
    /// edge is being dragged.
    pub active_edge: Option<u32>,
    /// The vertices that carry a marker, one entry for each marker.
    pub point_vertices: Vec<u32>,
    /// For each marker, whether it is drawn larger.
    pub point_enlarged: Vec<bool>,
    /// For each corner of each marker, how many edges its vertex still
    /// lacks: four entries for each marker.
    pub point_textures: Vec<usize>,
    /// The corner indices of the two triangles of each marker: six entries
    /// for each marker, the corners of a marker being numbered from four
    /// times its position on.
    pub point_indices: Vec<u16>,
}

/// Tells whether `x` is among `list`.
fn holds_vertex(list: &Vec<u32>, x: u32) -> (r: bool)
    ensures
        r == list@.contains(x),
{
    let mut i: usize = 0;
    while i < list.len()
        invariant
            i <= list.len(),
            forall|k: int| 0 <= k < i ==> list@[k] != x,
        decreases list.len() - i,
    {
        if list[i] == x {
            return true;
        }
        i += 1;
    }
    false
}

impl DynamicGraphicsData {
    /// Whether this is what is drawn of the mesh `m` in the state `state`,
    /// with a line to the pointer from `active_edge` and with the vertices
    /// `selected` drawn larger.
    pub open spec fn shows(
        &self,
        m: Mesh,
        state: PuzzleState,
        active_edge: Option<u32>,
        selected: Seq<u32>,
    ) -> bool {
        let unlocked = state.unlocked();
        let points = marked(state, m);
        &&& self.line_edges@ == state.connected()
        &&& self.active_edge == active_edge
        &&& self.triangle_indices@.len() == 3 * unlocked.len()
        &&& forall|i: int|
            0 <= i < 3 * unlocked.len() ==> (#[trigger] self.triangle_indices@[i]) == 3 * unlocked[i
                / 3] + i % 3
        &&& self.point_vertices@ == points
        &&& self.point_enlarged@.len() == points.len()
        &&& forall|q: int|
            0 <= q < points.len() ==> (#[trigger] self.point_enlarged@[q]) == selected.contains(
                points[q],
            )
        &&& self.point_textures@.len() == 4 * points.len()
        &&& forall|i: int|
            0 <= i < 4 * points.len() ==> (#[trigger] self.point_textures@[i]) == remaining(
                state,
                m,
                points[i / 4],
            )
        &&& self.point_indices@.len() == 6 * points.len()
        &&& forall|i: int|
            0 <= i < 6 * points.len() ==> (#[trigger] self.point_indices@[i]) == quad_indices(
                4 * (i / 6),
            )[i % 6]
    }

    /// Tells whether the frame of the puzzle in the state `state` can be
    /// given with corner indices of 16 bits.
    pub fn can_show(data: &PuzzleData, state: &PuzzleState) -> (r: bool)
        requires
            data.wf(),
            state.wf(data),
        ensures
            r == showable(*state, data@),
    {
        let ghost m = data@;
        let unlocked = state.get_unlocked_triangles();
        let mut u: usize = 0;
        while u < unlocked.len()
            invariant
                u <= unlocked.len(),
                unlocked@ == state.unlocked(),
                forall|i: int| 0 <= i < u ==> 3 * (#[trigger] state.unlocked()[i]) + 2 <= u16::MAX,
            decreases unlocked.len() - u,
        {
            if unlocked[u] > 21844 {
                assert(3 * state.unlocked()[u as int] + 2 > u16::MAX);
                return false;
            }
            u += 1;
        }
        let count = data.num_vertices();
        let mut markers: usize = 0;
        let mut idx: usize = 0;
        while idx < count && idx <= u32::MAX as usize
            invariant
                idx <= count,
                idx <= u32::MAX + 1,
                count == m.vertices.len(),
                m == data@,
                data.wf(),
                state.wf(data),
                markers == marked_among(*state, m, idx as int).len(),
                markers <= idx,
            decreases count - idx,
        {
            if state.should_be_interactable(data, idx as u32) {
                markers += 1;
            }
            idx += 1;
        }
        assert(idx == indexable(m));
        markers <= 0x4000
    }

    /// The dynamic data of a frame. Corner indices have 16 bits, so every
    /// corner of a marker and of an unlocked triangle must have such an
    /// index.
    pub fn from_data_and_state(
        data: &PuzzleData,
        state: &PuzzleState,
        interactive: &InteractiveFeatures,
    ) -> (r: DynamicGraphicsData)
        requires
            data.wf(),
            state.wf(data),
            showable(*state, data@),
        ensures
            r.shows(data@, *state, interactive.active_edge, interactive.selected_vertices@),
    {
        let ghost m = data@;
        let mut line_edges: Vec<(u32, u32)> = Vec::new();
        let connected = state.get_connected_edges();
        let mut e: usize = 0;
        while e < connected.len()
            invariant
                e <= connected.len(),
                line_edges@ == connected@.take(e as int),
            decreases connected.len() - e,
        {
            line_edges.push(connected[e]);
            assert(connected@.take(e + 1) =~= connected@.take(e as int).push(connected@[e as int]));
            e += 1;
        }
        assert(connected@.take(e as int) =~= connected@);

        let mut triangle_indices: Vec<u16> = Vec::new();
        let unlocked = state.get_unlocked_triangles();
        let mut u: usize = 0;
        while u < unlocked.len()
            invariant
                u <= unlocked.len(),
                unlocked@ == state.unlocked(),
                showable(*state, m),
                triangle_indices@.len() == 3 * u,
                forall|i: int|
                    0 <= i < 3 * u ==> (#[trigger] triangle_indices@[i]) == 3 * unlocked@[i / 3] + i
                        % 3,
            decreases unlocked.len() - u,
        {
            let idx = unlocked[u];
            assert(3 * state.unlocked()[u as int] + 2 <= u16::MAX);
            let base: u16 = (idx * 3) as u16;
            triangle_indices.push(base);
            triangle_indices.push(base + 1);
            triangle_indices.push(base + 2);
            u += 1;
        }

        let mut point_vertices: Vec<u32> = Vec::new();
        let mut point_enlarged: Vec<bool> = Vec::new();
        let mut point_textures: Vec<usize> = Vec::new();
        let mut point_indices: Vec<u16> = Vec::new();
        let count = data.num_vertices();
        let mut idx: usize = 0;
        while idx < count && idx <= u32::MAX as usize
            invariant
                idx <= count,
                idx <= u32::MAX + 1,
                count == m.vertices.len(),
                m == data@,
                data.wf(),
                state.wf(data),
                4 * marked(*state, m).len() <= 0x1_0000,
                point_vertices@ == marked_among(*state, m, idx as int),
                point_enlarged@.len() == point_vertices@.len(),
                forall|q: int|
                    0 <= q < point_vertices@.len() ==> (#[trigger] point_enlarged@[q])
                        == interactive.selected_vertices@.contains(point_vertices@[q]),
                point_textures@.len() == 4 * point_vertices@.len(),
                forall|i: int|
                    0 <= i < 4 * point_vertices@.len() ==> (#[trigger] point_textures@[i])
                        == remaining(*state, m, point_vertices@[i / 4]),
                point_indices@.len() == 6 * point_vertices@.len(),
                forall|i: int|
                    0 <= i < 6 * point_vertices@.len() ==> (#[trigger] point_indices@[i])
                        == quad_indices(4 * (i / 6))[i % 6],
            decreases count - idx,
        {
            let v: u32 = idx as u32;
            proof {
                lemma_permanent_at_most(*state, *data, v);
                lemma_marked_grows(*state, m, idx + 1, indexable(m));
            }
            let left: usize = data.num_edges_from_vertex(v) - state.get_permanent_edges_for_vertex(
                v,
            );
            let non_permanent = state.get_non_permanent_edges_for_vertex(v);
            if !(left == 0 && non_permanent == 0) {
                let enlarged = holds_vertex(&interactive.selected_vertices, v);
                let ghost placed = point_vertices@.len();
                let offset: u16 = (4 * point_vertices.len()) as u16;
                let mut quad = PointQuad::new(v, offset, left, enlarged);
                let ghost corners = quad.indices@;
                let ghost textures0 = point_textures@;
                let ghost indices0 = point_indices@;
                let ghost vertices0 = point_vertices@;
                let ghost enlarged0 = point_enlarged@;
                point_vertices.push(v);
                point_enlarged.push(enlarged);
                point_textures.append(&mut quad.textures);
                point_indices.append(&mut quad.indices);
                proof {
                    assert forall|q: int| 0 <= q < point_vertices@.len() implies (
                    #[trigger] point_enlarged@[q]) == interactive.selected_vertices@.contains(
                        point_vertices@[q],
                    ) by {
                        if q < placed {
                            assert(point_enlarged@[q] == enlarged0[q]);
                            assert(point_vertices@[q] == vertices0[q]);
                        }
                    }
                    assert forall|i: int| 0 <= i < 4 * point_vertices@.len() implies (
                    #[trigger] point_textures@[i]) == remaining(
                        *state,
                        m,
                        point_vertices@[i / 4],
                    ) by {
                        if i < 4 * placed {
                            assert(point_textures@[i] == textures0[i]);
                            assert(point_vertices@[i / 4] == vertices0[i / 4]);
                        } else {
                            assert(i / 4 == placed);
                        }
                    }
                    assert forall|i: int| 0 <= i < 6 * point_vertices@.len() implies (
                    #[trigger] point_indices@[i]) == quad_indices(4 * (i / 6))[i % 6] by {
                        if i < 6 * placed {
                            assert(point_indices@[i] == indices0[i]);
                        } else {
                            assert(i / 6 == placed);
                            assert(point_indices@[i] == corners[i - 6 * placed]);
                            assert(i % 6 == i - 6 * placed);
                        }
                    }
                }
            }
            idx += 1;
        }
        assert(idx == indexable(m));
        DynamicGraphicsData {
            triangle_indices,
            line_edges,
            active_edge: interactive.active_edge,
            point_vertices,
            point_enlarged,
            point_textures,
            point_indices,
        }
    }
}

impl PuzzleData {
    /// What is drawn of the puzzle whatever its state.
    pub fn get_static_graphics_data(&self) -> (r: StaticGraphicsData)
        ensures
            r.num_vertices == self@.vertices.len(),
            r.corner_vertices@ == corner_vertices(self@),
            r.corner_colors@ == corner_colors(self@),
            r.palette@ == palette(self@),
    {
        StaticGraphicsData::from_data(self)
    }

    /// What is drawn of the puzzle in the state `state`, with the vertex
    /// selected last and the proximity mask of the pointer, where there is
    /// one or the other. Every corner of a marker and of an unlocked
    /// triangle must have an index of 16 bits, which `can_show` tells.
    pub fn get_dynamic_graphics_data(
        &self,
        state: &PuzzleState,
        last_vertex: &Option<u32>,
        curr_pointer: &Option<Vec<bool>>,
    ) -> (r: DynamicGraphicsData)
        requires
            self.wf(),
            state.wf(self),
            showable(*state, self@),
        ensures
            r.shows(
                self@,
                *state,
                drag_origin(self@, *last_vertex, curr_pointer.is_some()),
                selection(*last_vertex, pointer_vertex(*state, self@, mask(*curr_pointer))),
            ),
    {
        let interactive = InteractiveFeatures::from_data_and_interact_info(
            self,
            state,
            last_vertex,
            curr_pointer,
        );
        DynamicGraphicsData::from_data_and_state(self, state, &interactive)
    }
}

} // verus!
