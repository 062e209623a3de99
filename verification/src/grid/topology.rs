//! From the cells that a mesh declares to interfaces, faces and boundaries.
//!
//! Each cell declares its sides by its vertices. A side that an earlier cell
//! declared, in either order of its two vertices, is the same interface; the
//! interface keeps the number and the orientation of its first declaration.

use crate::common::vector3::Vector3;
use crate::grid::cell::vertex_ids_of;
use crate::grid::cell::CellShape;
use crate::grid::cell::GridCell;
use crate::grid::geom_calc::positions_of;
use crate::grid::geom_calc::vector_sum;
use crate::grid::interface::edge_position;
use crate::grid::interface::edges_of;
use crate::grid::interface::lemma_edge_position;
use crate::grid::interface::normal_of;
use crate::grid::interface::same_edge;
use crate::grid::interface::spec_add_or_retrieve;
use crate::grid::interface::spec_direction;
use crate::grid::interface::Direction;
use crate::grid::interface::GridInterface;
use crate::grid::interface::InterfaceCollection;
use crate::grid::su2::ElementModel;
use crate::grid::su2::Su2Element;
use crate::grid::su2::Su2Error;
use crate::grid::vertex::GridVertex;
use crate::grid::Cell;
use crate::grid::GridError;
use crate::grid::Id;
use crate::grid::Interface;
use crate::grid::Vertex;
use vstd::prelude::*;

verus! {

/// A cell of a block, in contracts.
pub struct CellModel {
    /// The shape of the cell.
    pub shape: CellShape,
    /// The numbers of the vertices of the cell.
    pub vertex_ids: Seq<usize>,
    /// The interfaces around the cell, each with its direction.
    pub faces: Seq<(usize, Direction)>,
}

/// Whether every number of a list is below `limit`.
pub open spec fn ids_in_range(ids: Seq<usize>, limit: int) -> bool {
    forall|i: int| 0 <= i < ids.len() ==> #[trigger] ids[i] < limit
}

/// The positions of the vertices with the given numbers.
pub open spec fn positions_at(points: Seq<Vector3>, ids: Seq<usize>) -> Seq<Vector3> {
    Seq::new(ids.len(), |i: int| points[ids[i] as int])
}

/// The sides of a cell on the given vertices: each vertex with the next one,
/// the last with the first.
pub open spec fn sides_of(ids: Seq<usize>) -> Seq<(usize, usize)> {
    Seq::new(ids.len(), |i: int| (ids[i], ids[(i + 1) % (ids.len() as int)]))
}

/// The list of edges after the given sides were asked for, one after the
/// other, and the place of each side in it.
pub open spec fn add_sides(edges: Seq<(usize, usize)>, sides: Seq<(usize, usize)>) -> (
    Seq<(usize, usize)>,
    Seq<usize>,
)
    decreases sides.len(),
{
    if sides.len() == 0 {
        (edges, Seq::empty())
    } else {
        let before = add_sides(edges, sides.drop_last());
        let added = spec_add_or_retrieve(before.0, sides.last().0, sides.last().1);
        (added.0, before.1.push(added.1 as usize))
    }
}

/// The direction of the interface on `edge` as seen from the mean of the
/// vertices `cell_ids`. The interface has the orientation of `edge`: its
/// tangent runs from the first vertex of the edge to the second.
pub open spec fn face_direction(
    points: Seq<Vector3>,
    edge: (usize, usize),
    cell_ids: Seq<usize>,
) -> Result<Direction, GridError> {
    let a = points[edge.0 as int];
    let b = points[edge.1 as int];
    spec_direction(
        a.spec_plus(b),
        2,
        normal_of(b.spec_minus(a)),
        vector_sum(positions_at(points, cell_ids)),
        cell_ids.len() as int,
    )
}

/// The faces of a cell on the interfaces `face_ids`: each interface with its
/// direction. There are none where the mean of the cell lies on the line of
/// one of the interfaces.
pub open spec fn faces_of(
    points: Seq<Vector3>,
    edges: Seq<(usize, usize)>,
    face_ids: Seq<usize>,
    cell_ids: Seq<usize>,
) -> Option<Seq<(usize, Direction)>>
    decreases face_ids.len(),
{
    if face_ids.len() == 0 {
        Some(Seq::empty())
    } else {
        match faces_of(points, edges, face_ids.drop_last(), cell_ids) {
            None => None,
            Some(faces) => match face_direction(
                points,
                edges[face_ids.last() as int],
                cell_ids,
            ) {
                Err(_) => None,
                Ok(direction) => Some(faces.push((face_ids.last(), direction))),
            },
        }
    }
}

/// What one more cell makes of a list of edges: the list with the sides of
/// the cell in it, and the cell.
///
/// A cell is refused that has another number of vertices than its shape,
/// that names a vertex that is not there, or whose mean lies on the line of
/// one of its sides.
pub open spec fn spec_add_cell(
    points: Seq<Vector3>,
    edges: Seq<(usize, usize)>,
    element: ElementModel,
) -> Result<(Seq<(usize, usize)>, CellModel), Su2Error> {
    if element.vertex_ids.len() != element.shape.spec_number_of_vertices() {
        Err(Su2Error::InvalidElement)
    } else if !ids_in_range(element.vertex_ids, points.len() as int) {
        Err(Su2Error::VertexOutOfRange)
    } else {
        let added = add_sides(edges, sides_of(element.vertex_ids));
        match faces_of(points, added.0, added.1, element.vertex_ids) {
            None => Err(Su2Error::DegenerateOrientation),
            Some(faces) => Ok(
                (
                    added.0,
                    CellModel { shape: element.shape, vertex_ids: element.vertex_ids, faces },
                ),
            ),
        }
    }
}

/// The edges and the cells that a list of declared cells gives, taken one
/// after the other; the error of the first cell that is refused.
pub open spec fn spec_cells(points: Seq<Vector3>, elements: Seq<ElementModel>) -> Result<
    (Seq<(usize, usize)>, Seq<CellModel>),
    Su2Error,
>
    decreases elements.len(),
{
    if elements.len() == 0 {
        Ok((Seq::empty(), Seq::empty()))
    } else {
        match spec_cells(points, elements.drop_last()) {
            Err(e) => Err(e),
            Ok(before) => match spec_add_cell(points, before.0, elements.last()) {
                Err(e) => Err(e),
                Ok(added) => Ok((added.0, before.1.push(added.1))),
            },
        }
    }
}

/// The interfaces that the edges of a boundary are; an edge that names a
/// vertex that is not there, or that is no interface, is an error.
pub open spec fn spec_boundary_ids(
    point_count: int,
    edges: Seq<(usize, usize)>,
    boundary: Seq<(usize, usize)>,
) -> Result<Seq<usize>, Su2Error>
    decreases boundary.len(),
{
    if boundary.len() == 0 {
        Ok(Seq::empty())
    } else {
        match spec_boundary_ids(point_count, edges, boundary.drop_last()) {
            Err(e) => Err(e),
            Ok(ids) => {
                let edge = boundary.last();
                if edge.0 >= point_count || edge.1 >= point_count {
                    Err(Su2Error::VertexOutOfRange)
                } else {
                    match edge_position(edges, edge.0, edge.1) {
                        None => Err(Su2Error::UnknownBoundaryEdge),
                        Some(i) => Ok(ids.push(i as usize)),
                    }
                }
            },
        }
    }
}

/// Whether every interface of a list joins two of the given vertices and has
/// the geometry that follows from their positions.
pub open spec fn interfaces_on(interfaces: Seq<GridInterface>, vertices: Seq<GridVertex>) -> bool {
    forall|k: int|
        0 <= k < interfaces.len() ==> {
            let edge = #[trigger] edges_of(interfaces)[k];
            &&& edge.0 < vertices.len()
            &&& edge.1 < vertices.len()
            &&& interfaces[k].is_edge(vertices[edge.0 as int], vertices[edge.1 as int], k as usize)
        }
}

/// Whether a cell is the cell `model` under the number `id`, with the volume
/// and the centre that follow from the positions of its vertices.
pub open spec fn cell_matches(
    cell: GridCell,
    model: CellModel,
    points: Seq<Vector3>,
    id: usize,
) -> bool {
    &&& cell.spec_id() == id
    &&& cell.spec_shape() == model.shape
    &&& cell.spec_vertex_ids() == model.vertex_ids
    &&& cell.spec_cell_faces().len() == model.faces.len()
    &&& forall|j: int|
        0 <= j < model.faces.len() ==> (#[trigger] cell.spec_cell_faces()[j]).spec_interface()
            == model.faces[j].0 && cell.spec_cell_faces()[j].spec_direction() == model.faces[j].1
    &&& cell.spec_volume_doubled() == model.shape.spec_volume_doubled(
        positions_at(points, model.vertex_ids),
    )
    &&& cell.spec_centre().spec_sum() == vector_sum(positions_at(points, model.vertex_ids))
    &&& cell.spec_centre().spec_count() == model.vertex_ids.len()
}

/// Asking for sides only adds edges at the end of the list, and every side
/// is then found at its place.
pub proof fn lemma_add_sides(edges: Seq<(usize, usize)>, sides: Seq<(usize, usize)>)
    ensures
        add_sides(edges, sides).1.len() == sides.len(),
        add_sides(edges, sides).0.len() >= edges.len(),
        add_sides(edges, sides).0.take(edges.len() as int) == edges,
        forall|j: int|
            0 <= j < sides.len() ==> (#[trigger] add_sides(edges, sides).1[j]) < add_sides(
                edges,
                sides,
            ).0.len(),
    decreases sides.len(),
{
    if sides.len() == 0 {
        assert(edges.take(edges.len() as int) =~= edges);
    } else {
        let before = add_sides(edges, sides.drop_last());
        lemma_add_sides(edges, sides.drop_last());
        lemma_edge_position(before.0, sides.last().0, sides.last().1);
        let added = spec_add_or_retrieve(before.0, sides.last().0, sides.last().1);
        assert(added.0.take(edges.len() as int) =~= before.0.take(edges.len() as int));
        let after = add_sides(edges, sides);
        assert forall|j: int| 0 <= j < sides.len() implies (#[trigger] after.1[j]) < after.0.len() by {
            if j < sides.len() - 1 {
                assert(after.1[j] == before.1[j]);
            }
        }
    }
}

/// The positions of a list of vertices.
pub open spec fn points_of(vertices: Seq<GridVertex>) -> Seq<Vector3> {
    Seq::new(vertices.len(), |i: int| vertices[i].spec_pos())
}

/// Whether every vertex of a list has the number of its place.
pub open spec fn vertices_dense(vertices: Seq<GridVertex>) -> bool {
    forall|i: int|
        0 <= i < vertices.len() ==> (#[trigger] vertices[i]).spec_id() == i
            && vertices[i].well_formed()
}

/// The faces of a cell are its interfaces, each with its direction; there
/// are none exactly where one interface has no direction.
pub proof fn lemma_faces_of(
    points: Seq<Vector3>,
    edges: Seq<(usize, usize)>,
    face_ids: Seq<usize>,
    cell_ids: Seq<usize>,
)
    ensures
        match faces_of(points, edges, face_ids, cell_ids) {
            None => exists|j: int|
                0 <= j < face_ids.len() && face_direction(
                    points,
                    edges[#[trigger] face_ids[j] as int],
                    cell_ids,
                ) is Err,
            Some(faces) => {
                &&& faces.len() == face_ids.len()
                &&& forall|j: int|
                    0 <= j < face_ids.len() ==> (#[trigger] faces[j]).0 == face_ids[j]
                        && Ok::<Direction, GridError>(faces[j].1) == face_direction(
                        points,
                        edges[face_ids[j] as int],
                        cell_ids,
                    )
            },
        },
    decreases face_ids.len(),
{
    if face_ids.len() > 0 {
        let shorter = face_ids.drop_last();
        lemma_faces_of(points, edges, shorter, cell_ids);
        match faces_of(points, edges, shorter, cell_ids) {
            None => {
                let j = choose|j: int|
                    0 <= j < shorter.len() && face_direction(
                        points,
                        edges[#[trigger] shorter[j] as int],
                        cell_ids,
                    ) is Err;
                assert(face_ids[j] == shorter[j]);
            },
            Some(faces) => {
                match face_direction(points, edges[face_ids.last() as int], cell_ids) {
                    Err(_) => {
                        assert(face_ids[face_ids.len() - 1] == face_ids.last());
                    },
                    Ok(direction) => {
                        let all = faces.push((face_ids.last(), direction));
                        assert forall|j: int| 0 <= j < face_ids.len() implies (#[trigger] all[j]).0
                            == face_ids[j] && Ok::<Direction, GridError>(all[j].1)
                            == face_direction(points, edges[face_ids[j] as int], cell_ids) by {
                            if j < shorter.len() {
                                assert(all[j] == faces[j]);
                                assert(face_ids[j] == shorter[j]);
                            }
                        }
                    },
                }
            },
        }
    }
}

/// Adds the sides of a cell to the interfaces. Gives the number of the
/// interface of each side.
fn add_cell_sides(
    vertices: &Vec<GridVertex>,
    collection: &mut InterfaceCollection,
    vertex_ids: &Vec<usize>,
) -> (face_ids: Vec<usize>)
    requires
        vertices_dense(vertices@),
        old(collection).valid(),
        interfaces_on(old(collection).spec_interfaces(), vertices@),
        ids_in_range(vertex_ids@, vertices@.len() as int),
    ensures
        final(collection).valid(),
        interfaces_on(final(collection).spec_interfaces(), vertices@),
        (edges_of(final(collection).spec_interfaces()), face_ids@) == add_sides(
            edges_of(old(collection).spec_interfaces()),
            sides_of(vertex_ids@),
        ),
{
    let n = vertex_ids.len();
    let mut face_ids: Vec<usize> = Vec::with_capacity(n);
    let ghost sides = sides_of(vertex_ids@);
    let ghost start = edges_of(collection.spec_interfaces());
    let mut j: usize = 0;
    proof {
        assert(sides.take(0) =~= Seq::<(usize, usize)>::empty());
    }
    while j < n
        invariant
            j <= n,
            n == vertex_ids@.len(),
            sides == sides_of(vertex_ids@),
            vertices_dense(vertices@),
            ids_in_range(vertex_ids@, vertices@.len() as int),
            collection.valid(),
            interfaces_on(collection.spec_interfaces(), vertices@),
            (edges_of(collection.spec_interfaces()), face_ids@) == add_sides(
                start,
                sides.take(j as int),
            ),
        decreases n - j,
    {
        let next: usize = if j + 1 == n {
            0
        } else {
            j + 1
        };
        let a = vertex_ids[j];
        let b = vertex_ids[next];
        proof {
            if j + 1 == n {
                vstd::arithmetic::div_mod::lemma_mod_self_0(n as int);
            } else {
                vstd::arithmetic::div_mod::lemma_small_mod((j + 1) as nat, n as nat);
            }
            assert(next == (j + 1) % (n as int));
            assert(sides[j as int] == (a, b));
            assert(sides.take(j + 1).drop_last() =~= sides.take(j as int));
            assert(sides.take(j + 1).last() == (a, b));
        }
        let mut pair: Vec<&GridVertex> = Vec::with_capacity(2);
        pair.push(&vertices[a]);
        pair.push(&vertices[b]);
        let ghost before = collection.spec_interfaces();
        let found = collection.add_or_retrieve(pair.as_slice());
        proof {
            assert(pair@.len() == 2);
            assert(pair@[0].spec_id() == a);
            assert(pair@[1].spec_id() == b);
            let after = collection.spec_interfaces();
            assert(found is Ok);
            lemma_edge_position(edges_of(before), a, b);
            assert forall|k: int| 0 <= k < after.len() implies {
                let edge = #[trigger] edges_of(after)[k];
                &&& edge.0 < vertices@.len()
                &&& edge.1 < vertices@.len()
                &&& after[k].is_edge(
                    vertices@[edge.0 as int],
                    vertices@[edge.1 as int],
                    k as usize,
                )
            } by {
                if k < before.len() {
                    assert(after[k] == before[k]) by {
                        if edge_position(edges_of(before), a, b) is None {
                            assert(after.drop_last()[k] == before[k]);
                        }
                    }
                    assert(edges_of(after)[k] == edges_of(before)[k]);
                }
            }
        }
        match found {
            Ok(id) => {
                face_ids.push(id);
            },
            Err(_) => {
                proof {
                    assert(false);
                }
            },
        }
        j = j + 1;
    }
    proof {
        assert(sides.take(n as int) =~= sides);
    }
    face_ids
}

/// Builds one cell of a mesh: adds its sides to the interfaces and gives
/// the cell on them.
pub fn add_cell(
    vertices: &Vec<GridVertex>,
    collection: &mut InterfaceCollection,
    element: &Su2Element,
    id: usize,
) -> (cell: Result<GridCell, Su2Error>)
    requires
        vertices_dense(vertices@),
        old(collection).valid(),
        interfaces_on(old(collection).spec_interfaces(), vertices@),
    ensures
        match spec_add_cell(
            points_of(vertices@),
            edges_of(old(collection).spec_interfaces()),
            element@,
        ) {
            Err(e) => cell matches Err(found) && found == e,
            Ok((edges, model)) => {
                &&& cell matches Ok(built)
                &&& cell_matches(built, model, points_of(vertices@), id)
                &&& final(collection).valid()
                &&& interfaces_on(final(collection).spec_interfaces(), vertices@)
                &&& edges_of(final(collection).spec_interfaces()) == edges
            },
        },
{
    let n = element.vertex_ids.len();
    if n != element.shape.number_of_vertices() {
        return Err(Su2Error::InvalidElement);
    }
    let count = vertices.len();
    let mut i: usize = 0;
    while i < n
        invariant
            i <= n,
            n == element.vertex_ids@.len(),
            n == element.shape.spec_number_of_vertices(),
            count == vertices@.len(),
            forall|j: int| 0 <= j < i ==> #[trigger] element.vertex_ids@[j] < count,
        decreases n - i,
    {
        if element.vertex_ids[i] >= count {
            proof {
                assert(!(element.vertex_ids@[i as int] < points_of(vertices@).len()));
            }
            return Err(Su2Error::VertexOutOfRange);
        }
        i = i + 1;
    }
    let ghost points = points_of(vertices@);
    let ghost cell_ids = element.vertex_ids@;
    let face_ids = add_cell_sides(vertices, collection, &element.vertex_ids);
    let ghost edges = edges_of(collection.spec_interfaces());
    proof {
        lemma_add_sides(edges_of(old(collection).spec_interfaces()), sides_of(cell_ids));
        lemma_faces_of(points, edges, face_ids@, cell_ids);
    }
    let m = face_ids.len();
    let mut sides: Vec<&GridInterface> = Vec::with_capacity(m);
    let mut k: usize = 0;
    while k < m
        invariant
            k <= m,
            m == face_ids@.len(),
            collection.valid(),
            forall|j: int| 0 <= j < m ==> (#[trigger] face_ids@[j]) < collection.spec_interfaces().len(),
            sides@.len() == k,
            forall|j: int|
                0 <= j < k ==> *(#[trigger] sides@[j]) == collection.spec_interfaces()[face_ids@[j] as int],
        decreases m - k,
    {
        sides.push(collection.interface_with_id(face_ids[k]));
        k = k + 1;
    }
    let mut corners: Vec<&GridVertex> = Vec::with_capacity(n);
    let mut c: usize = 0;
    while c < n
        invariant
            c <= n,
            n == element.vertex_ids@.len(),
            forall|j: int| 0 <= j < n ==> #[trigger] element.vertex_ids@[j] < vertices@.len(),
            corners@.len() == c,
            forall|j: int|
                0 <= j < c ==> *(#[trigger] corners@[j]) == vertices@[element.vertex_ids@[j] as int],
        decreases n - c,
    {
        corners.push(&vertices[element.vertex_ids[c]]);
        c = c + 1;
    }
    proof {
        assert(positions_of(corners@) =~= positions_at(points, cell_ids));
        assert(vertex_ids_of(corners@) =~= cell_ids);
        let interfaces = collection.spec_interfaces();
        assert forall|j: int| 0 <= j < m implies (#[trigger] sides@[j]).spec_direction_from(
            vector_sum(positions_of(corners@)),
            n as int,
        ) == face_direction(points, edges[face_ids@[j] as int], cell_ids) by {
            let f = face_ids@[j] as int;
            let edge = edges_of(interfaces)[f];
            assert(interfaces[f].is_edge(
                vertices@[edge.0 as int],
                vertices@[edge.1 as int],
                f as usize,
            ));
        }
    }
    match GridCell::new(sides.as_slice(), corners.as_slice(), id) {
        Err(_) => {
            proof {
                assert(GridCell::some_interface_degenerate(sides@, corners@));
                let j = choose|j: int|
                    0 <= j < sides@.len() && (#[trigger] sides@[j]).spec_direction_from(
                        vector_sum(positions_of(corners@)),
                        corners@.len() as int,
                    ) is Err;
                assert(face_direction(points, edges[face_ids@[j] as int], cell_ids) is Err);
                if faces_of(points, edges, face_ids@, cell_ids) is Some {
                    let faces = faces_of(points, edges, face_ids@, cell_ids).unwrap();
                    assert(Ok::<Direction, GridError>(faces[j].1) == face_direction(
                        points,
                        edges[face_ids@[j] as int],
                        cell_ids,
                    ));
                }
                assert(faces_of(points, edges, face_ids@, cell_ids) is None);
                assert(ids_in_range(cell_ids, points.len() as int));
                assert(add_sides(
                    edges_of(old(collection).spec_interfaces()),
                    sides_of(cell_ids),
                ) == (edges, face_ids@));
            }
            Err(Su2Error::DegenerateOrientation)
        },
        Ok(built) => {
            proof {
                assert(faces_of(points, edges, face_ids@, cell_ids) is Some) by {
                    if faces_of(points, edges, face_ids@, cell_ids) is None {
                        let j = choose|j: int|
                            0 <= j < face_ids@.len() && face_direction(
                                points,
                                edges[#[trigger] face_ids@[j] as int],
                                cell_ids,
                            ) is Err;
                        assert(sides@[j].spec_direction_from(
                            vector_sum(positions_of(corners@)),
                            n as int,
                        ) is Err);
                        assert(GridCell::some_interface_degenerate(sides@, corners@));
                    }
                }
                let faces = faces_of(points, edges, face_ids@, cell_ids).unwrap();
                assert forall|j: int| 0 <= j < faces.len() implies (
                #[trigger] built.spec_cell_faces()[j]).spec_interface() == faces[j].0
                    && built.spec_cell_faces()[j].spec_direction() == faces[j].1 by {
                    assert(sides@[j].spec_id() == face_ids@[j]);
                }
                assert(ids_in_range(cell_ids, points.len() as int));
                assert(add_sides(
                    edges_of(old(collection).spec_interfaces()),
                    sides_of(cell_ids),
                ) == (edges, face_ids@));
                assert(built.spec_shape() == element.shape);
                let model = CellModel { shape: element.shape, vertex_ids: cell_ids, faces };
                assert(built.spec_cell_faces().len() == faces.len());
                assert(cell_matches(built, model, points, id));
            }
            Ok(built)
        },
    }
}

/// Once an edge of a boundary is refused, every longer list of edges has
/// its error.
pub proof fn lemma_boundary_error_sticks(
    point_count: int,
    edges: Seq<(usize, usize)>,
    boundary: Seq<(usize, usize)>,
    k: int,
)
    requires
        0 <= k <= boundary.len(),
        spec_boundary_ids(point_count, edges, boundary.take(k)) is Err,
    ensures
        spec_boundary_ids(point_count, edges, boundary) == spec_boundary_ids(
            point_count,
            edges,
            boundary.take(k),
        ),
    decreases boundary.len() - k,
{
    if k == boundary.len() {
        assert(boundary.take(k) =~= boundary);
    } else {
        assert(boundary.take(k + 1).drop_last() =~= boundary.take(k));
        lemma_boundary_error_sticks(point_count, edges, boundary, k + 1);
    }
}

/// Once a cell is refused, every longer list of cells has its error.
pub proof fn lemma_cells_error_sticks(points: Seq<Vector3>, elements: Seq<ElementModel>, k: int)
    requires
        0 <= k <= elements.len(),
        spec_cells(points, elements.take(k)) is Err,
    ensures
        spec_cells(points, elements) == spec_cells(points, elements.take(k)),
    decreases elements.len() - k,
{
    if k == elements.len() {
        assert(elements.take(k) =~= elements);
    } else {
        assert(elements.take(k + 1).drop_last() =~= elements.take(k));
        lemma_cells_error_sticks(points, elements, k + 1);
    }
}

/// Finds the interfaces that the edges of a boundary are.
pub fn resolve_boundary(
    vertices: &Vec<GridVertex>,
    collection: &InterfaceCollection,
    boundary: &Vec<(usize, usize)>,
) -> (ids: Result<Vec<usize>, Su2Error>)
    requires
        vertices_dense(vertices@),
        collection.valid(),
    ensures
        match spec_boundary_ids(
            vertices@.len() as int,
            edges_of(collection.spec_interfaces()),
            boundary@,
        ) {
            Ok(expected) => ids matches Ok(found) && found@ == expected,
            Err(e) => ids matches Err(found) && found == e,
        },
{
    let n = boundary.len();
    let count = vertices.len();
    let ghost edges = edges_of(collection.spec_interfaces());
    let mut ids: Vec<usize> = Vec::with_capacity(n);
    let mut i: usize = 0;
    proof {
        assert(boundary@.take(0) =~= Seq::<(usize, usize)>::empty());
    }
    while i < n
        invariant
            i <= n,
            n == boundary@.len(),
            count == vertices@.len(),
            vertices_dense(vertices@),
            collection.valid(),
            edges == edges_of(collection.spec_interfaces()),
            spec_boundary_ids(count as int, edges, boundary@.take(i as int)) == Ok::<
                Seq<usize>,
                Su2Error,
            >(ids@),
        decreases n - i,
    {
        let (a, b) = boundary[i];
        proof {
            assert(boundary@.take(i + 1).drop_last() =~= boundary@.take(i as int));
            assert(boundary@.take(i + 1).last() == (a, b));
        }
        if a >= count || b >= count {
            proof {
                lemma_boundary_error_sticks(count as int, edges, boundary@, i + 1);
            }
            return Err(Su2Error::VertexOutOfRange);
        }
        let mut pair: Vec<&GridVertex> = Vec::with_capacity(2);
        pair.push(&vertices[a]);
        pair.push(&vertices[b]);
        match collection.find_interface(pair.as_slice()) {
            None => {
                proof {
                    lemma_boundary_error_sticks(count as int, edges, boundary@, i + 1);
                }
                return Err(Su2Error::UnknownBoundaryEdge);
            },
            Some(id) => {
                proof {
                    lemma_edge_position(edges, a, b);
                }
                ids.push(id);
            },
        }
        i = i + 1;
    }
    proof {
        assert(boundary@.take(n as int) =~= boundary@);
    }
    Ok(ids)
}

/// The faces of a cell do not change when edges are added after those that
/// the cell refers to.
pub proof fn lemma_faces_of_more_edges(
    points: Seq<Vector3>,
    edges: Seq<(usize, usize)>,
    more: Seq<(usize, usize)>,
    face_ids: Seq<usize>,
    cell_ids: Seq<usize>,
)
    requires
        edges.len() <= more.len(),
        more.take(edges.len() as int) == edges,
        ids_in_range(face_ids, edges.len() as int),
    ensures
        faces_of(points, more, face_ids, cell_ids) == faces_of(points, edges, face_ids, cell_ids),
    decreases face_ids.len(),
{
    if face_ids.len() > 0 {
        let shorter = face_ids.drop_last();
        assert forall|i: int| 0 <= i < shorter.len() implies #[trigger] shorter[i] < edges.len() by {
            assert(shorter[i] == face_ids[i]);
        }
        lemma_faces_of_more_edges(points, edges, more, shorter, cell_ids);
        let last = face_ids[face_ids.len() - 1];
        assert(last < edges.len());
        assert(more.take(edges.len() as int)[last as int] == more[last as int]);
    }
}

/// The interfaces of a boundary are among the edges.
pub proof fn lemma_boundary_ids_in_range(
    point_count: int,
    edges: Seq<(usize, usize)>,
    boundary: Seq<(usize, usize)>,
)
    ensures
        spec_boundary_ids(point_count, edges, boundary) matches Ok(ids) ==> ids.len()
            == boundary.len() && ids_in_range(ids, edges.len() as int),
    decreases boundary.len(),
{
    if boundary.len() > 0 {
        lemma_boundary_ids_in_range(point_count, edges, boundary.drop_last());
        lemma_edge_position(edges, boundary.last().0, boundary.last().1);
        if spec_boundary_ids(point_count, edges, boundary) is Ok {
            let ids = spec_boundary_ids(point_count, edges, boundary).unwrap();
            let before = spec_boundary_ids(point_count, edges, boundary.drop_last()).unwrap();
            assert forall|i: int| 0 <= i < ids.len() implies #[trigger] ids[i] < edges.len() by {
                if i < before.len() {
                    assert(ids[i] == before[i]);
                }
            }
        }
    }
}

/// Whether no two edges of a list join the same vertices.
pub open spec fn edges_distinct(edges: Seq<(usize, usize)>) -> bool {
    forall|i: int, j: int|
        0 <= i < j < edges.len() ==> !same_edge(#[trigger] edges[i], (#[trigger] edges[j]).0, edges[j].1)
}

/// Whether every edge of a list joins vertices below `limit`.
pub open spec fn edges_in_range(edges: Seq<(usize, usize)>, limit: int) -> bool {
    forall|k: int| 0 <= k < edges.len() ==> (#[trigger] edges[k]).0 < limit && edges[k].1 < limit
}

/// Whether the interface `id` is a face of the cell.
pub open spec fn cell_has_face(cell: CellModel, id: int) -> bool {
    exists|j: int| 0 <= j < cell.faces.len() && (#[trigger] cell.faces[j]).0 == id
}

/// Whether the interface `id` is a face of one of the cells.
pub open spec fn interface_has_cell(cells: Seq<CellModel>, id: int) -> bool {
    exists|i: int| 0 <= i < cells.len() && cell_has_face(#[trigger] cells[i], id)
}

/// Whether `k` is one of the numbers of a list.
pub open spec fn is_listed(ids: Seq<usize>, k: int) -> bool {
    exists|j: int| 0 <= j < ids.len() && #[trigger] ids[j] == k
}

/// In a list without doubles every edge is found at its own place.
pub proof fn lemma_edge_found_at_its_place(edges: Seq<(usize, usize)>, k: int)
    requires
        edges_distinct(edges),
        0 <= k < edges.len(),
    ensures
        edge_position(edges, edges[k].0, edges[k].1) == Some(k),
        edge_position(edges, edges[k].1, edges[k].0) == Some(k),
{
    lemma_edge_position(edges, edges[k].0, edges[k].1);
    lemma_edge_position(edges, edges[k].1, edges[k].0);
    let edge = edges[k];
    assert(same_edge(edge, edge.0, edge.1));
    assert(same_edge(edge, edge.1, edge.0));
    let found = edge_position(edges, edge.0, edge.1).unwrap();
    if found < k {
        assert(same_edge(edges[found], edges[k].0, edges[k].1));
    }
    if found > k {
        assert(same_edge(edges[k], edges[found].0, edges[found].1));
    }
    let other = edge_position(edges, edge.1, edge.0).unwrap();
    if other < k {
        assert(same_edge(edges[other], edges[k].0, edges[k].1));
    }
    if other > k {
        assert(same_edge(edges[k], edges[other].0, edges[other].1));
    }
}

/// Asking for sides keeps a list of edges without doubles and within the
/// vertices, and every edge that it adds is the place of one of the sides.
pub proof fn lemma_add_sides_keeps(
    edges: Seq<(usize, usize)>,
    sides: Seq<(usize, usize)>,
    limit: int,
)
    requires
        edges_distinct(edges),
        edges_in_range(edges, limit),
        edges_in_range(sides, limit),
        add_sides(edges, sides).0.len() <= usize::MAX,
    ensures
        edges_distinct(add_sides(edges, sides).0),
        edges_in_range(add_sides(edges, sides).0, limit),
        forall|k: int|
            edges.len() <= k < add_sides(edges, sides).0.len() ==> #[trigger] is_listed(
                add_sides(edges, sides).1,
                k,
            ),
    decreases sides.len(),
{
    if sides.len() > 0 {
        let shorter = sides.drop_last();
        assert forall|k: int| 0 <= k < shorter.len() implies (#[trigger] shorter[k]).0 < limit
            && shorter[k].1 < limit by {
            assert(shorter[k] == sides[k]);
        }
        lemma_add_sides(edges, shorter);
        let before = add_sides(edges, shorter);
        assert(before.0.len() <= add_sides(edges, sides).0.len()) by {
            lemma_edge_position(before.0, sides.last().0, sides.last().1);
        }
        lemma_add_sides_keeps(edges, shorter, limit);
        let side = sides.last();
        assert(side == sides[sides.len() - 1]);
        lemma_edge_position(before.0, side.0, side.1);
        let added = spec_add_or_retrieve(before.0, side.0, side.1);
        let after = add_sides(edges, sides);
        assert(after.0 == added.0);
        assert forall|i: int, j: int| 0 <= i < j < after.0.len() implies !same_edge(
            #[trigger] after.0[i],
            (#[trigger] after.0[j]).0,
            after.0[j].1,
        ) by {
            if j < before.0.len() {
                assert(after.0[i] == before.0[i]);
                assert(after.0[j] == before.0[j]);
            } else {
                assert(after.0[i] == before.0[i]);
                assert(!same_edge(before.0[i], side.0, side.1));
            }
        }
        assert forall|k: int| 0 <= k < after.0.len() implies (#[trigger] after.0[k]).0 < limit
            && after.0[k].1 < limit by {
            if k < before.0.len() {
                assert(after.0[k] == before.0[k]);
            }
        }
        assert forall|k: int| edges.len() <= k < after.0.len() implies #[trigger] is_listed(
            after.1,
            k,
        ) by {
            if k < before.0.len() {
                assert(is_listed(before.1, k));
                let j = choose|j: int| 0 <= j < before.1.len() && #[trigger] before.1[j] == k;
                assert(after.1[j] == before.1[j]);
            } else {
                assert(after.1[sides.len() - 1] == k);
            }
        }
    }
}

/// What the cells of a mesh give: as many cells as were declared, each with
/// its shape and its vertices; edges without doubles between vertices that
/// are there; and every edge is a face of one of the cells.
pub proof fn lemma_cells_built(points: Seq<Vector3>, elements: Seq<ElementModel>)
    requires
        spec_cells(points, elements) is Ok,
        spec_cells(points, elements).unwrap().0.len() <= usize::MAX,
    ensures
        ({
            let built = spec_cells(points, elements).unwrap();
            &&& built.1.len() == elements.len()
            &&& forall|i: int|
                0 <= i < elements.len() ==> (#[trigger] built.1[i]).shape == elements[i].shape
                    && built.1[i].vertex_ids == elements[i].vertex_ids
            &&& edges_distinct(built.0)
            &&& edges_in_range(built.0, points.len() as int)
            &&& forall|k: int| 0 <= k < built.0.len() ==> #[trigger] interface_has_cell(built.1, k)
        }),
    decreases elements.len(),
{
    if elements.len() > 0 {
        let shorter = elements.drop_last();
        let before = spec_cells(points, shorter).unwrap();
        let element = elements.last();
        lemma_add_sides(before.0, sides_of(element.vertex_ids));
        lemma_cells_built(points, shorter);
        let step = spec_add_cell(points, before.0, element).unwrap();
        let built = spec_cells(points, elements).unwrap();
        let sides = sides_of(element.vertex_ids);
        let n = element.vertex_ids.len() as int;
        assert forall|k: int| 0 <= k < sides.len() implies (#[trigger] sides[k]).0 < points.len()
            && sides[k].1 < points.len() by {
            assert(0 <= (k + 1) % n < n) by (nonlinear_arith)
                requires
                    n > 0,
            ;
            assert(element.vertex_ids[k] < points.len());
            assert(element.vertex_ids[(k + 1) % n] < points.len());
        }
        lemma_add_sides_keeps(before.0, sides, points.len() as int);
        lemma_add_sides(before.0, sides);
        let added = add_sides(before.0, sides);
        lemma_faces_of(points, added.0, added.1, element.vertex_ids);
        assert forall|i: int| 0 <= i < elements.len() implies (#[trigger] built.1[i]).shape
            == elements[i].shape && built.1[i].vertex_ids == elements[i].vertex_ids by {
            if i < shorter.len() {
                assert(built.1[i] == before.1[i]);
                assert(shorter[i] == elements[i]);
            }
        }
        assert forall|k: int| 0 <= k < built.0.len() implies #[trigger] interface_has_cell(
            built.1,
            k,
        ) by {
            if k < before.0.len() {
                assert(interface_has_cell(before.1, k));
                let i = choose|i: int| 0 <= i < before.1.len() && cell_has_face(
                    #[trigger] before.1[i],
                    k,
                );
                assert(built.1[i] == before.1[i]);
            } else {
                assert(is_listed(added.1, k));
                let j = choose|j: int| 0 <= j < added.1.len() && #[trigger] added.1[j] == k;
                let cell = built.1[elements.len() - 1];
                assert(cell == step.1);
                assert(cell.faces[j].0 == k);
                assert(cell_has_face(cell, k));
            }
        }
    }
}

/// Whether one of the sides of a declared cell joins the vertices `a` and
/// `b`.
pub open spec fn element_has_side(element: ElementModel, a: usize, b: usize) -> bool {
    exists|j: int|
        0 <= j < element.vertex_ids.len() && same_edge(
            #[trigger] sides_of(element.vertex_ids)[j],
            a,
            b,
        )
}

/// The place that a side is given is that of an edge between its vertices,
/// and stays so when more sides are asked for.
pub proof fn lemma_add_sides_places(edges: Seq<(usize, usize)>, sides: Seq<(usize, usize)>)
    requires
        add_sides(edges, sides).0.len() <= usize::MAX,
    ensures
        forall|j: int|
            0 <= j < sides.len() ==> same_edge(
                add_sides(edges, sides).0[(#[trigger] add_sides(edges, sides).1[j]) as int],
                sides[j].0,
                sides[j].1,
            ),
    decreases sides.len(),
{
    if sides.len() > 0 {
        let shorter = sides.drop_last();
        lemma_add_sides(edges, shorter);
        lemma_add_sides(edges, sides);
        let before = add_sides(edges, shorter);
        let side = sides.last();
        lemma_edge_position(before.0, side.0, side.1);
        lemma_add_sides_places(edges, shorter);
        let added = spec_add_or_retrieve(before.0, side.0, side.1);
        let after = add_sides(edges, sides);
        assert forall|j: int| 0 <= j < sides.len() implies same_edge(
            after.0[(#[trigger] after.1[j]) as int],
            sides[j].0,
            sides[j].1,
        ) by {
            if j < shorter.len() {
                assert(after.1[j] == before.1[j]);
                assert(before.1[j] < before.0.len());
                assert(after.0[before.1[j] as int] == before.0[before.1[j] as int]);
                assert(shorter[j] == sides[j]);
            } else {
                assert(sides[j] == side);
            }
        }
    }
}

/// Every face of a built cell is an edge between the vertices of one of the
/// sides of the cell as it was declared.
pub proof fn lemma_faces_are_sides(points: Seq<Vector3>, elements: Seq<ElementModel>)
    requires
        spec_cells(points, elements) is Ok,
        spec_cells(points, elements).unwrap().0.len() <= usize::MAX,
    ensures
        ({
            let built = spec_cells(points, elements).unwrap();
            forall|i: int, id: int|
                0 <= i < built.1.len() && i < elements.len() && 0 <= id < built.0.len()
                    && #[trigger] cell_has_face(built.1[i], id) ==> element_has_side(
                    #[trigger] elements[i],
                    built.0[id].0,
                    built.0[id].1,
                )
        }),
    decreases elements.len(),
{
    if elements.len() > 0 {
        let shorter = elements.drop_last();
        let before = spec_cells(points, shorter).unwrap();
        let element = elements.last();
        let sides = sides_of(element.vertex_ids);
        lemma_add_sides(before.0, sides);
        lemma_faces_are_sides(points, shorter);
        lemma_add_sides_places(before.0, sides);
        let added = add_sides(before.0, sides);
        lemma_faces_of(points, added.0, added.1, element.vertex_ids);
        let built = spec_cells(points, elements).unwrap();
        lemma_cells_built(points, shorter);
        assert forall|i: int, id: int|
            0 <= i < built.1.len() && i < elements.len() && 0 <= id < built.0.len()
                && #[trigger] cell_has_face(built.1[i], id) implies element_has_side(
            #[trigger] elements[i],
            built.0[id].0,
            built.0[id].1,
        ) by {
            let cell = built.1[i];
            let j = choose|j: int| 0 <= j < cell.faces.len() && (#[trigger] cell.faces[j]).0 == id;
            if i < shorter.len() {
                assert(cell == before.1[i]);
                assert(shorter[i] == elements[i]);
                let old_sides = sides_of(shorter[i].vertex_ids);
                crate::grid::topology::lemma_face_ids_in_range(points, shorter, i);
                assert(id < before.0.len());
                assert(cell_has_face(before.1[i], id));
                assert(built.0[id] == before.0[id]) by {
                    assert(added.0.take(before.0.len() as int)[id] == added.0[id]);
                }
            } else {
                assert(elements[i] == element);
                assert(cell.faces[j].0 == added.1[j]);
                assert(same_edge(added.0[added.1[j] as int], sides[j].0, sides[j].1));
                let edge = built.0[id];
                assert(same_edge(sides[j], edge.0, edge.1));
            }
        }
    }
}

/// The faces of a built cell are among the edges that were there when the
/// cell was built.
pub proof fn lemma_face_ids_in_range(points: Seq<Vector3>, elements: Seq<ElementModel>, i: int)
    requires
        spec_cells(points, elements) is Ok,
        0 <= i < elements.len(),
    ensures
        ({
            let built = spec_cells(points, elements).unwrap();
            &&& i < built.1.len()
            &&& forall|j: int|
                0 <= j < built.1[i].faces.len() ==> (#[trigger] built.1[i].faces[j]).0
                    < built.0.len()
        }),
    decreases elements.len(),
{
    let shorter = elements.drop_last();
    let before = spec_cells(points, shorter).unwrap();
    let element = elements.last();
    let sides = sides_of(element.vertex_ids);
    lemma_add_sides(before.0, sides);
    let added = add_sides(before.0, sides);
    lemma_faces_of(points, added.0, added.1, element.vertex_ids);
    let built = spec_cells(points, elements).unwrap();
    if i < shorter.len() {
        lemma_face_ids_in_range(points, shorter, i);
        assert(built.1[i] == before.1[i]);
    } else {
        lemma_cells_length(points, shorter);
        assert forall|j: int| 0 <= j < built.1[i].faces.len() implies (
        #[trigger] built.1[i].faces[j]).0 < built.0.len() by {
            assert(built.1[i].faces[j].0 == added.1[j]);
        }
    }
}

/// As many cells are built as were declared.
pub proof fn lemma_cells_length(points: Seq<Vector3>, elements: Seq<ElementModel>)
    requires
        spec_cells(points, elements) is Ok,
    ensures
        spec_cells(points, elements).unwrap().1.len() == elements.len(),
    decreases elements.len(),
{
    if elements.len() > 0 {
        lemma_cells_length(points, elements.drop_last());
    }
}

/// Whether an edge between `a` and `b` is in a list.
pub open spec fn edge_listed(edges: Seq<(usize, usize)>, a: usize, b: usize) -> bool {
    exists|k: int| 0 <= k < edges.len() && same_edge(#[trigger] edges[k], a, b)
}

/// An edge that is in a list is in every list that starts with that list.
pub proof fn lemma_edge_listed_more(
    edges: Seq<(usize, usize)>,
    more: Seq<(usize, usize)>,
    a: usize,
    b: usize,
)
    requires
        edge_listed(edges, a, b),
        edges.len() <= more.len(),
        more.take(edges.len() as int) == edges,
    ensures
        edge_listed(more, a, b),
{
    let k = choose|k: int| 0 <= k < edges.len() && same_edge(#[trigger] edges[k], a, b);
    assert(more.take(edges.len() as int)[k] == more[k]);
    assert(same_edge(more[k], a, b));
}

/// Every side of every declared cell is among the edges that the cells give.
pub proof fn lemma_sides_are_edges(points: Seq<Vector3>, elements: Seq<ElementModel>)
    requires
        spec_cells(points, elements) is Ok,
        spec_cells(points, elements).unwrap().0.len() <= usize::MAX,
    ensures
        forall|i: int, a: usize, b: usize|
            0 <= i < elements.len() && element_has_side(#[trigger] elements[i], a, b)
                ==> #[trigger] edge_listed(spec_cells(points, elements).unwrap().0, a, b),
    decreases elements.len(),
{
    if elements.len() > 0 {
        let shorter = elements.drop_last();
        let before = spec_cells(points, shorter).unwrap();
        let element = elements.last();
        let sides = sides_of(element.vertex_ids);
        lemma_add_sides(before.0, sides);
        lemma_sides_are_edges(points, shorter);
        lemma_add_sides_places(before.0, sides);
        let added = add_sides(before.0, sides);
        let built = spec_cells(points, elements).unwrap();
        assert(built.0 == added.0);
        assert forall|i: int, a: usize, b: usize|
            0 <= i < elements.len() && element_has_side(
                #[trigger] elements[i],
                a,
                b,
            ) implies #[trigger] edge_listed(built.0, a, b) by {
            if i < shorter.len() {
                assert(shorter[i] == elements[i]);
                assert(edge_listed(before.0, a, b));
                lemma_edge_listed_more(before.0, built.0, a, b);
            } else {
                assert(elements[i] == element);
                let j = choose|j: int|
                    0 <= j < element.vertex_ids.len() && same_edge(#[trigger] sides[j], a, b);
                let k = added.1[j] as int;
                assert(same_edge(added.0[k], sides[j].0, sides[j].1));
                assert(same_edge(built.0[k], a, b));
            }
        }
    }
}

/// The interfaces of a boundary whose edges are all among the edges, between
/// vertices that are there, are found.
pub proof fn lemma_boundary_ids_found(
    point_count: int,
    edges: Seq<(usize, usize)>,
    boundary: Seq<(usize, usize)>,
    k: int,
)
    requires
        edges.len() <= usize::MAX,
        0 <= k <= boundary.len(),
        forall|j: int|
            0 <= j < boundary.len() ==> (#[trigger] boundary[j]).0 < point_count && boundary[j].1
                < point_count && edge_listed(edges, boundary[j].0, boundary[j].1),
    ensures
        spec_boundary_ids(point_count, edges, boundary.take(k)) is Ok,
        spec_boundary_ids(point_count, edges, boundary.take(k)).unwrap().len() == k,
        forall|j: int|
            0 <= j < k ==> {
                let id = #[trigger] spec_boundary_ids(
                    point_count,
                    edges,
                    boundary.take(k),
                ).unwrap()[j];
                id < edges.len() && same_edge(edges[id as int], boundary[j].0, boundary[j].1)
            },
    decreases k,
{
    if k > 0 {
        lemma_boundary_ids_found(point_count, edges, boundary, k - 1);
        assert(boundary.take(k).drop_last() =~= boundary.take(k - 1));
        let edge = boundary[k - 1];
        assert(boundary.take(k).last() == edge);
        assert(edge_listed(edges, edge.0, edge.1));
        lemma_edge_position(edges, edge.0, edge.1);
        let before = spec_boundary_ids(point_count, edges, boundary.take(k - 1)).unwrap();
        let now = spec_boundary_ids(point_count, edges, boundary.take(k)).unwrap();
        assert forall|j: int| 0 <= j < k implies {
            let id = #[trigger] now[j];
            id < edges.len() && same_edge(edges[id as int], boundary[j].0, boundary[j].1)
        } by {
            if j < k - 1 {
                assert(now[j] == before[j]);
            }
        }
    }
}

} // verus!
