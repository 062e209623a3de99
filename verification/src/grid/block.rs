//! Blocks: the vertices, interfaces and cells of one mesh, and its
//! boundaries.

use crate::common::number::append_bytes;
use crate::common::number::format_usize;
use crate::common::number::nat_digits;
use crate::common::number::COORD_MAX;
use crate::common::text::after_last;
use crate::common::text::copy_range;
use crate::grid::su2::bytes_equal;
use crate::grid::su2::read_su2;
use crate::grid::su2::spec_read_su2;
use crate::grid::su2::spec_write_su2;
use crate::grid::su2::write_su2;
use crate::common::vector3::Vector3;
use crate::grid::cell::GridCell;
use crate::grid::interface::edges_of;
use crate::grid::interface::GridInterface;
use crate::grid::interface::InterfaceCollection;
use crate::grid::su2::marker_views;
use crate::grid::su2::ElementModel;
use crate::grid::su2::MarkerModel;
use crate::grid::su2::MeshModel;
use crate::grid::su2::Su2Error;
use crate::grid::su2::Su2Mesh;
use crate::grid::su2::element_views;
use crate::grid::su2::Su2Element;
use crate::grid::su2::Su2Marker;
use crate::grid::interface::same_edge;
use crate::grid::topology::add_cell;
use crate::grid::topology::cell_has_face;
use crate::grid::topology::edge_listed;
use crate::grid::topology::edges_distinct;
use crate::grid::topology::lemma_boundary_ids_found;
use crate::grid::topology::lemma_sides_are_edges;
use crate::grid::topology::edges_in_range;
use crate::grid::topology::element_has_side;
use crate::grid::topology::interface_has_cell;
use crate::grid::topology::lemma_boundary_ids_in_range;
use crate::grid::topology::lemma_cells_built;
use crate::grid::topology::lemma_edge_found_at_its_place;
use crate::grid::topology::lemma_faces_are_sides;
use crate::grid::interface::edge_position;
use crate::grid::interface::lemma_edge_position;
use crate::grid::topology::add_sides;
use crate::grid::topology::lemma_add_sides;
use crate::grid::topology::lemma_faces_of;
use crate::grid::topology::lemma_faces_of_more_edges;
use crate::grid::topology::sides_of;
use crate::grid::topology::spec_add_cell;
use crate::grid::topology::cell_matches;
use crate::grid::topology::faces_of;
use crate::grid::topology::ids_in_range;
use crate::grid::topology::interfaces_on;
use crate::grid::topology::lemma_cells_error_sticks;
use crate::grid::topology::points_of;
use crate::grid::topology::resolve_boundary;
use crate::grid::topology::spec_boundary_ids;
use crate::grid::topology::spec_cells;
use crate::grid::topology::vertices_dense;
use crate::grid::topology::CellModel;
use crate::grid::vertex::GridVertex;
use crate::grid::Block;
pub use crate::grid::Boundary;
pub use crate::grid::BoundaryModel;
use crate::grid::Cell;
use crate::grid::Id;
use crate::grid::Interface;
use crate::grid::Vertex;
use vstd::prelude::*;

verus! {

/// A block, in contracts: the positions of its vertices, the pairs of
/// vertices that its interfaces join, its cells and its boundaries.
pub struct BlockModel {
    /// The number of dimensions.
    pub dimensions: u8,
    /// The positions of the vertices.
    pub points: Seq<Vector3>,
    /// The vertices of each interface, in the order of the numbers of the
    /// interfaces.
    pub edges: Seq<(usize, usize)>,
    /// The cells.
    pub cells: Seq<CellModel>,
    /// The boundaries.
    pub boundaries: Seq<BoundaryModel>,
}

/// The boundaries of a list, in contracts.
pub open spec fn boundary_views(list: Seq<Boundary>) -> Seq<BoundaryModel> {
    Seq::new(list.len(), |i: int| list[i]@)
}

/// A cell, in contracts.
pub open spec fn cell_model(cell: GridCell) -> CellModel {
    CellModel {
        shape: cell.spec_shape(),
        vertex_ids: cell.spec_vertex_ids(),
        faces: Seq::new(
            cell.spec_cell_faces().len(),
            |j: int| (cell.spec_cell_faces()[j].spec_interface(), cell.spec_cell_faces()[j].spec_direction()),
        ),
    }
}

/// The cells of a list, in contracts.
pub open spec fn cell_models(list: Seq<GridCell>) -> Seq<CellModel> {
    Seq::new(list.len(), |i: int| cell_model(list[i]))
}

/// Whether every position of a list lies within the range of coordinates.
pub open spec fn points_in_range(points: Seq<Vector3>) -> bool {
    forall|i: int| 0 <= i < points.len() ==> (#[trigger] points[i]).bounded(COORD_MAX as int)
}

/// The boundaries that a list of declared boundaries gives, each edge found
/// among the interfaces; the error of the first edge that is refused.
pub open spec fn spec_boundaries(
    point_count: int,
    edges: Seq<(usize, usize)>,
    markers: Seq<MarkerModel>,
) -> Result<Seq<BoundaryModel>, Su2Error>
    decreases markers.len(),
{
    if markers.len() == 0 {
        Ok(Seq::empty())
    } else {
        match spec_boundaries(point_count, edges, markers.drop_last()) {
            Err(e) => Err(e),
            Ok(list) => match spec_boundary_ids(point_count, edges, markers.last().edges) {
                Err(e) => Err(e),
                Ok(interfaces) => Ok(
                    list.push(BoundaryModel { tag: markers.last().tag, interfaces }),
                ),
            },
        }
    }
}

/// The block that a mesh gives.
///
/// The vertices take the positions in their order. The cells are built one
/// after the other, each adding the interfaces that no earlier cell had.
/// Then the edges of the boundaries are found among the interfaces. The
/// first error on this way is the result.
pub open spec fn spec_build(mesh: MeshModel) -> Result<BlockModel, Su2Error> {
    if mesh.dimensions != 2 && mesh.dimensions != 3 {
        Err(Su2Error::InvalidDimensions)
    } else if !points_in_range(mesh.points) {
        Err(Su2Error::CoordinateOutOfRange)
    } else {
        match spec_cells(mesh.points, mesh.elements) {
            Err(e) => Err(e),
            Ok(built) => match spec_boundaries(mesh.points.len() as int, built.0, mesh.markers) {
                Err(e) => Err(e),
                Ok(boundaries) => Ok(
                    BlockModel {
                        dimensions: mesh.dimensions,
                        points: mesh.points,
                        edges: built.0,
                        cells: built.1,
                        boundaries,
                    },
                ),
            },
        }
    }
}

/// Once a boundary is refused, every longer list of boundaries has its
/// error.
pub proof fn lemma_boundaries_error_sticks(
    point_count: int,
    edges: Seq<(usize, usize)>,
    markers: Seq<MarkerModel>,
    k: int,
)
    requires
        0 <= k <= markers.len(),
        spec_boundaries(point_count, edges, markers.take(k)) is Err,
    ensures
        spec_boundaries(point_count, edges, markers) == spec_boundaries(
            point_count,
            edges,
            markers.take(k),
        ),
    decreases markers.len() - k,
{
    if k == markers.len() {
        assert(markers.take(k) =~= markers);
    } else {
        assert(markers.take(k + 1).drop_last() =~= markers.take(k));
        lemma_boundaries_error_sticks(point_count, edges, markers, k + 1);
    }
}

/// Whether every interface of a list stands at the place of its number and
/// joins vertices that are there.
pub open spec fn interfaces_well_formed(interfaces: Seq<GridInterface>, vertex_count: int) -> bool {
    forall|k: int|
        0 <= k < interfaces.len() ==> {
            &&& (#[trigger] interfaces[k]).spec_id() == k
            &&& interfaces[k].well_formed()
            &&& ids_in_range(interfaces[k].spec_vertex_ids(), vertex_count)
        }
}

/// Whether every cell of a list stands at the place of its number and has
/// vertices and interfaces that are there.
pub open spec fn cells_well_formed(
    cells: Seq<GridCell>,
    vertex_count: int,
    interface_count: int,
) -> bool {
    forall|i: int|
        0 <= i < cells.len() ==> {
            &&& (#[trigger] cells[i]).spec_id() == i
            &&& cells[i].well_formed()
            &&& ids_in_range(cells[i].spec_vertex_ids(), vertex_count)
            &&& ids_in_range(cells[i].spec_interface_ids(), interface_count)
        }
}

/// Whether every boundary of a list lies on interfaces that are there.
pub open spec fn boundaries_well_formed(boundaries: Seq<Boundary>, interface_count: int) -> bool {
    forall|b: int|
        0 <= b < boundaries.len() ==> ids_in_range(
            (#[trigger] boundaries[b]).interfaces@,
            interface_count,
        )
}

/// Whether the parts of a block fit together: two or three dimensions, every
/// part at the place of its number, and every number that a part goes by
/// that of a part of the block.
pub open spec fn parts_well_formed(
    vertices: Seq<GridVertex>,
    interfaces: Seq<GridInterface>,
    cells: Seq<GridCell>,
    boundaries: Seq<Boundary>,
    dimensions: u8,
) -> bool {
    &&& (dimensions == 2 || dimensions == 3)
    &&& vertices_dense(vertices)
    &&& interfaces_well_formed(interfaces, vertices.len() as int)
    &&& cells_well_formed(cells, vertices.len() as int, interfaces.len() as int)
    &&& boundaries_well_formed(boundaries, interfaces.len() as int)
}

/// The vertices, interfaces and cells of one mesh, and its boundaries.
#[derive(Debug)]
pub struct GridBlock {
    vertices: Vec<GridVertex>,
    interfaces: Vec<GridInterface>,
    cells: Vec<GridCell>,
    boundaries: Vec<Boundary>,
    dimensions: u8,
    id: usize,
}

impl GridBlock {
    /// The block, in contracts.
    pub open spec fn model(&self) -> BlockModel {
        BlockModel {
            dimensions: self.spec_dimensions(),
            points: points_of(self.spec_vertices()),
            edges: edges_of(self.spec_interfaces()),
            cells: cell_models(self.spec_cells()),
            boundaries: boundary_views(self.spec_boundaries()),
        }
    }

    /// Every part of a block stands at the place of its number, and every
    /// number that a part goes by is that of a part of the block.
    #[verifier::type_invariant]
    pub open spec fn well_formed(&self) -> bool {
        parts_well_formed(
            self.spec_vertices(),
            self.spec_interfaces(),
            self.spec_cells(),
            self.spec_boundaries(),
            self.spec_dimensions(),
        )
    }

    /// Whether the interfaces and the cells have the geometry that follows
    /// from the positions of the vertices: each interface that of its two
    /// vertices, each cell the centre and the volume of its vertices and the
    /// direction of each of its interfaces.
    pub open spec fn consistent(&self) -> bool {
        let points = points_of(self.spec_vertices());
        let edges = edges_of(self.spec_interfaces());
        let cells = self.spec_cells();
        &&& interfaces_on(self.spec_interfaces(), self.spec_vertices())
        &&& forall|i: int|
            0 <= i < cells.len() ==> {
                &&& cell_matches(#[trigger] cells[i], cell_model(cells[i]), points, i as usize)
                &&& faces_of(
                    points,
                    edges,
                    cells[i].spec_interface_ids(),
                    cells[i].spec_vertex_ids(),
                ) == Some(cell_model(cells[i]).faces)
            }
    }
}

impl Block<GridVertex, GridInterface, GridCell> for GridBlock {
    closed spec fn spec_vertices(&self) -> Seq<GridVertex> {
        self.vertices@
    }

    closed spec fn spec_interfaces(&self) -> Seq<GridInterface> {
        self.interfaces@
    }

    closed spec fn spec_cells(&self) -> Seq<GridCell> {
        self.cells@
    }

    closed spec fn spec_boundaries(&self) -> Seq<Boundary> {
        self.boundaries@
    }

    closed spec fn spec_dimensions(&self) -> u8 {
        self.dimensions
    }

    closed spec fn spec_block_id(&self) -> usize {
        self.id
    }

    fn vertices(&self) -> &Vec<GridVertex> {
        &self.vertices
    }

    fn interfaces(&self) -> &Vec<GridInterface> {
        &self.interfaces
    }

    fn cells(&self) -> &Vec<GridCell> {
        &self.cells
    }

    fn boundaries(&self) -> &Vec<Boundary> {
        &self.boundaries
    }

    fn dimensions(&self) -> u8 {
        self.dimensions
    }

    fn id(&self) -> usize {
        self.id
    }
}

/// Whether a position lies within the range of coordinates.
pub fn point_in_range(point: &Vector3) -> (inside: bool)
    ensures
        inside == point.bounded(COORD_MAX as int),
{
    -COORD_MAX <= point.x && point.x <= COORD_MAX && -COORD_MAX <= point.y && point.y <= COORD_MAX
        && -COORD_MAX <= point.z && point.z <= COORD_MAX
}

/// The vertices at the given positions, each under the number of its place.
pub fn build_vertices(points: &Vec<Vector3>) -> (vertices: Result<Vec<GridVertex>, Su2Error>)
    ensures
        points_in_range(points@) ==> (vertices matches Ok(built) && vertices_dense(built@)
            && points_of(built@) == points@),
        !points_in_range(points@) ==> (vertices matches Err(e) && e
            == Su2Error::CoordinateOutOfRange),
{
    let n = points.len();
    let mut vertices: Vec<GridVertex> = Vec::with_capacity(n);
    let mut i: usize = 0;
    while i < n
        invariant
            i <= n,
            n == points@.len(),
            vertices@.len() == i,
            forall|j: int| 0 <= j < i ==> (#[trigger] points@[j]).bounded(COORD_MAX as int),
            forall|j: int|
                0 <= j < i ==> (#[trigger] vertices@[j]).spec_id() == j
                    && vertices@[j].well_formed() && vertices@[j].spec_pos() == points@[j],
        decreases n - i,
    {
        if !point_in_range(&points[i]) {
            return Err(Su2Error::CoordinateOutOfRange);
        }
        vertices.push(GridVertex::new(points[i], i));
        i = i + 1;
    }
    proof {
        assert(points_of(vertices@) =~= points@);
    }
    Ok(vertices)
}

/// Whether a list of cells is what the models say, on the given positions
/// and edges.
pub open spec fn cells_match(
    cells: Seq<GridCell>,
    models: Seq<CellModel>,
    points: Seq<Vector3>,
    edges: Seq<(usize, usize)>,
) -> bool {
    &&& cells.len() == models.len()
    &&& forall|i: int|
        0 <= i < cells.len() ==> {
            &&& cell_matches(#[trigger] cells[i], models[i], points, i as usize)
            &&& cells[i].well_formed()
            &&& ids_in_range(models[i].vertex_ids, points.len() as int)
            &&& ids_in_range(cells[i].spec_interface_ids(), edges.len() as int)
            &&& faces_of(points, edges, cells[i].spec_interface_ids(), models[i].vertex_ids)
                == Some(models[i].faces)
        }
}

/// Builds the cells of a mesh, and with them its interfaces.
pub fn build_cells(
    vertices: &Vec<GridVertex>,
    collection: &mut InterfaceCollection,
    elements: &Vec<Su2Element>,
) -> (cells: Result<Vec<GridCell>, Su2Error>)
    requires
        vertices_dense(vertices@),
        old(collection).valid(),
        old(collection).spec_interfaces().len() == 0,
    ensures
        match spec_cells(points_of(vertices@), element_views(elements@)) {
            Err(e) => cells matches Err(found) && found == e,
            Ok((edges, models)) => {
                &&& cells matches Ok(built)
                &&& cells_match(built@, models, points_of(vertices@), edges)
                &&& final(collection).valid()
                &&& interfaces_on(final(collection).spec_interfaces(), vertices@)
                &&& edges_of(final(collection).spec_interfaces()) == edges
            },
        },
{
    let n = elements.len();
    let ghost points = points_of(vertices@);
    let ghost all = element_views(elements@);
    let mut cells: Vec<GridCell> = Vec::with_capacity(n);
    let mut i: usize = 0;
    proof {
        assert(all.take(0) =~= Seq::<ElementModel>::empty());
        assert(edges_of(collection.spec_interfaces()) =~= Seq::<(usize, usize)>::empty());
    }
    while i < n
        invariant
            i <= n,
            n == elements@.len(),
            points == points_of(vertices@),
            all == element_views(elements@),
            vertices_dense(vertices@),
            collection.valid(),
            cells@.len() == i,
            interfaces_on(collection.spec_interfaces(), vertices@),
            spec_cells(points, all.take(i as int)) is Ok,
            spec_cells(points, all.take(i as int)).unwrap().0 == edges_of(
                collection.spec_interfaces(),
            ),
            cells_match(
                cells@,
                spec_cells(points, all.take(i as int)).unwrap().1,
                points,
                edges_of(collection.spec_interfaces()),
            ),
        decreases n - i,
    {
        let ghost before = spec_cells(points, all.take(i as int)).unwrap();
        let ghost old_cells = cells@;
        proof {
            assert(all.take(i + 1).drop_last() =~= all.take(i as int));
            assert(all.take(i + 1).last() == elements@[i as int]@);
        }
        match add_cell(vertices, collection, &elements[i], i) {
            Err(e) => {
                proof {
                    lemma_cells_error_sticks(points, all, i + 1);
                }
                return Err(e);
            },
            Ok(cell) => {
                proof {
                    use_type_invariant(&cell);
                    assert(cell.well_formed());
                }
                let ghost step = spec_add_cell(points, before.0, elements@[i as int]@).unwrap();
                cells.push(cell);
                proof {
                    let model = step.1;
                    let edges = step.0;
                    let models = before.1.push(model);
                    let sides = sides_of(model.vertex_ids);
                    lemma_add_sides(before.0, sides);
                    assert(add_sides(before.0, sides).0 == edges);
                    let face_ids = add_sides(before.0, sides).1;
                    lemma_faces_of(points, edges, face_ids, model.vertex_ids);
                    assert(cell.spec_interface_ids() =~= face_ids);
                    assert forall|k: int| 0 <= k < cells@.len() implies {
                        &&& cell_matches(#[trigger] cells@[k], models[k], points, k as usize)
                        &&& cells@[k].well_formed()
                        &&& ids_in_range(models[k].vertex_ids, points.len() as int)
                        &&& ids_in_range(cells@[k].spec_interface_ids(), edges.len() as int)
                        &&& faces_of(
                            points,
                            edges,
                            cells@[k].spec_interface_ids(),
                            models[k].vertex_ids,
                        ) == Some(models[k].faces)
                    } by {
                        if k < old_cells.len() {
                            assert(cells@[k] == old_cells[k]);
                            assert(models[k] == before.1[k]);
                            assert(cell_matches(old_cells[k], before.1[k], points, k as usize));
                            let old_ids = old_cells[k].spec_interface_ids();
                            assert(ids_in_range(old_ids, before.0.len() as int));
                            assert forall|j: int| 0 <= j < old_ids.len() implies #[trigger] old_ids[j]
                                < edges.len() by {
                                assert(old_ids[j] < before.0.len());
                            }
                            lemma_faces_of_more_edges(
                                points,
                                before.0,
                                edges,
                                old_ids,
                                before.1[k].vertex_ids,
                            );
                        } else {
                            assert(k == i);
                            assert(cells@[k] == cell);
                            assert(models[k] == model);
                            assert(cell_matches(cell, model, points, i));
                            assert(ids_in_range(model.vertex_ids, points.len() as int));
                            assert forall|j: int| 0 <= j < face_ids.len() implies #[trigger] face_ids[j]
                                < edges.len() by {
                                assert(add_sides(before.0, sides).1[j] < edges.len());
                            }
                            assert(faces_of(points, edges, face_ids, model.vertex_ids) == Some(
                                model.faces,
                            ));
                        }
                    }
                }
            },
        }
        i = i + 1;
    }
    proof {
        assert(all.take(n as int) =~= all);
    }
    Ok(cells)
}

/// Finds the interfaces of the boundaries of a mesh.
pub fn build_boundaries(
    vertices: &Vec<GridVertex>,
    collection: &InterfaceCollection,
    markers: &Vec<Su2Marker>,
) -> (boundaries: Result<Vec<Boundary>, Su2Error>)
    requires
        vertices_dense(vertices@),
        collection.valid(),
    ensures
        match spec_boundaries(
            vertices@.len() as int,
            edges_of(collection.spec_interfaces()),
            marker_views(markers@),
        ) {
            Err(e) => boundaries matches Err(found) && found == e,
            Ok(models) => boundaries matches Ok(built) && boundary_views(built@) == models
                && forall|b: int|
                0 <= b < built@.len() ==> ids_in_range(
                    (#[trigger] built@[b]).interfaces@,
                    collection.spec_interfaces().len() as int,
                ),
        },
{
    let n = markers.len();
    let ghost all = marker_views(markers@);
    let ghost edges = edges_of(collection.spec_interfaces());
    let ghost count = vertices@.len() as int;
    let mut boundaries: Vec<Boundary> = Vec::with_capacity(n);
    let mut i: usize = 0;
    proof {
        assert(all.take(0) =~= Seq::<MarkerModel>::empty());
        assert(boundary_views(boundaries@) =~= Seq::<BoundaryModel>::empty());
    }
    while i < n
        invariant
            i <= n,
            n == markers@.len(),
            all == marker_views(markers@),
            edges == edges_of(collection.spec_interfaces()),
            count == vertices@.len(),
            vertices_dense(vertices@),
            collection.valid(),
            spec_boundaries(count, edges, all.take(i as int)) == Ok::<
                Seq<BoundaryModel>,
                Su2Error,
            >(boundary_views(boundaries@)),
            forall|b: int|
                0 <= b < boundaries@.len() ==> ids_in_range(
                    (#[trigger] boundaries@[b]).interfaces@,
                    edges.len() as int,
                ),
        decreases n - i,
    {
        proof {
            assert(all.take(i + 1).drop_last() =~= all.take(i as int));
            assert(all.take(i + 1).last() == markers@[i as int]@);
        }
        match resolve_boundary(vertices, collection, &markers[i].edges) {
            Err(e) => {
                proof {
                    lemma_boundaries_error_sticks(count, edges, all, i + 1);
                }
                return Err(e);
            },
            Ok(interfaces) => {
                proof {
                    crate::grid::topology::lemma_boundary_ids_in_range(
                        count,
                        edges,
                        markers@[i as int].edges@,
                    );
                }
                let tag = crate::common::text::copy_range(
                    markers[i].tag.as_slice(),
                    0,
                    markers[i].tag.len(),
                );
                proof {
                    assert(tag@ =~= markers@[i as int].tag@);
                }
                let ghost before = boundary_views(boundaries@);
                let boundary = Boundary { tag, interfaces };
                boundaries.push(boundary);
                proof {
                    assert(boundary_views(boundaries@) =~= before.push(boundary@));
                }
            },
        }
        i = i + 1;
    }
    proof {
        assert(all.take(n as int) =~= all);
    }
    Ok(boundaries)
}

impl GridBlock {
    /// Builds the block of a mesh under the number `id`.
    pub fn from_mesh(mesh: &Su2Mesh, id: usize) -> (block: Result<GridBlock, Su2Error>)
        ensures
            match spec_build(mesh@) {
                Err(e) => block matches Err(found) && found == e,
                Ok(model) => block matches Ok(built) && built.model() == model
                    && built.spec_block_id() == id && built.consistent(),
            },
    {
        if mesh.dimensions != 2 && mesh.dimensions != 3 {
            return Err(Su2Error::InvalidDimensions);
        }
        let vertices = match build_vertices(&mesh.points) {
            Err(e) => {
                return Err(e);
            },
            Ok(vertices) => vertices,
        };
        let mut collection = InterfaceCollection::with_capacity(mesh.elements.len());
        let cells = match build_cells(&vertices, &mut collection, &mesh.elements) {
            Err(e) => {
                return Err(e);
            },
            Ok(cells) => cells,
        };
        let boundaries = match build_boundaries(&vertices, &collection, &mesh.markers) {
            Err(e) => {
                return Err(e);
            },
            Ok(boundaries) => boundaries,
        };
        proof {
            collection.lemma_well_formed();
        }
        let ghost points = mesh.points@;
        let ghost built = spec_cells(points, element_views(mesh.elements@)).unwrap();
        let interfaces = collection.into_interfaces();
        let cell_count = cells.len();
        let vertex_count = vertices.len();
        let interface_count = interfaces.len();
        proof {
            assert(points_of(vertices@).len() == vertices@.len());
            assert(edges_of(interfaces@).len() == interfaces@.len());
            assert(cell_models(cells@) =~= built.1) by {
                assert forall|i: int| 0 <= i < cells@.len() implies cell_models(cells@)[i]
                    == built.1[i] by {
                    assert(cell_matches(cells@[i], built.1[i], points, i as usize));
                    assert(cell_model(cells@[i]).faces =~= built.1[i].faces);
                }
            }
            assert forall|k: int| 0 <= k < interfaces@.len() implies {
                &&& (#[trigger] interfaces@[k]).spec_id() == k
                &&& interfaces@[k].well_formed()
                &&& ids_in_range(interfaces@[k].spec_vertex_ids(), vertices@.len() as int)
            } by {
                let edge = edges_of(interfaces@)[k];
                assert(interfaces@[k].spec_vertex_ids() == seq![edge.0, edge.1]);
            }
            assert forall|i: int| 0 <= i < cells@.len() implies {
                &&& (#[trigger] cells@[i]).spec_id() == i
                &&& cells@[i].well_formed()
                &&& ids_in_range(cells@[i].spec_vertex_ids(), vertices@.len() as int)
                &&& ids_in_range(cells@[i].spec_interface_ids(), interfaces@.len() as int)
            } by {
                assert(cell_matches(cells@[i], built.1[i], points, i as usize));
                assert(ids_in_range(built.1[i].vertex_ids, points.len() as int));
                assert(ids_in_range(cells@[i].spec_interface_ids(), built.0.len() as int));
            }
            assert forall|b: int| 0 <= b < boundaries@.len() implies ids_in_range(
                (#[trigger] boundaries@[b]).interfaces@,
                interfaces@.len() as int,
            ) by {}
            assert forall|i: int| 0 <= i < cells@.len() implies {
                &&& cell_matches(
                    #[trigger] cells@[i],
                    cell_model(cells@[i]),
                    points_of(vertices@),
                    i as usize,
                )
                &&& faces_of(
                    points_of(vertices@),
                    edges_of(interfaces@),
                    cells@[i].spec_interface_ids(),
                    cells@[i].spec_vertex_ids(),
                ) == Some(cell_model(cells@[i]).faces)
            } by {
                assert(cell_matches(cells@[i], built.1[i], points, i as usize));
                assert(cell_model(cells@[i]) == built.1[i]);
            }
        }
        Ok(GridBlock { vertices, interfaces, cells, boundaries, dimensions: mesh.dimensions, id })
    }
}

/// Why a block could not be read, written or put together.
#[derive(Debug, PartialEq, Eq)]
pub enum BlockError {
    /// The name of the file does not say what format the file has.
    UnknownFileType(UnknownFileType),
    /// The text is not a mesh that a block can be built from.
    Mesh(Su2Error),
    /// A part of the block does not stand at the place of its number, or
    /// refers to a part that the block does not have.
    InvalidReference,
}

/// A file whose name does not say what format it has.
#[derive(Debug, PartialEq, Eq)]
pub struct UnknownFileType {
    /// The name of the file.
    pub name: Vec<u8>,
    /// The extension of the name, where it has one.
    pub ext: Option<Vec<u8>>,
}

/// The bytes `Unknown extension '`.
pub open spec fn unknown_extension_text() -> Seq<u8> {
    seq![
        85u8,
        110u8,
        107u8,
        110u8,
        111u8,
        119u8,
        110u8,
        32u8,
        101u8,
        120u8,
        116u8,
        101u8,
        110u8,
        115u8,
        105u8,
        111u8,
        110u8,
        32u8,
        39u8,
    ]
}

/// The bytes `' for file '`.
pub open spec fn for_file_text() -> Seq<u8> {
    seq![39u8, 32u8, 102u8, 111u8, 114u8, 32u8, 102u8, 105u8, 108u8, 101u8, 32u8, 39u8]
}

/// The bytes `No extension to file: `.
pub open spec fn no_extension_text() -> Seq<u8> {
    seq![
        78u8,
        111u8,
        32u8,
        101u8,
        120u8,
        116u8,
        101u8,
        110u8,
        115u8,
        105u8,
        111u8,
        110u8,
        32u8,
        116u8,
        111u8,
        32u8,
        102u8,
        105u8,
        108u8,
        101u8,
        58u8,
        32u8,
    ]
}

impl UnknownFileType {
    /// What the error says, in contracts.
    pub open spec fn spec_message(&self) -> Seq<u8> {
        match self.ext {
            Some(ext) => unknown_extension_text() + ext@ + for_file_text() + self.name@ + seq![
                39u8,
            ],
            None => no_extension_text() + self.name@,
        }
    }

    /// What the error says: the extension that is not known and the file
    /// that has it, or the file that has none.
    pub fn message(&self) -> (message: Vec<u8>)
        ensures
            message@ == self.spec_message(),
    {
        match &self.ext {
            Some(ext) => {
                let mut message: Vec<u8> = vec![
                    85u8,
                    110u8,
                    107u8,
                    110u8,
                    111u8,
                    119u8,
                    110u8,
                    32u8,
                    101u8,
                    120u8,
                    116u8,
                    101u8,
                    110u8,
                    115u8,
                    105u8,
                    111u8,
                    110u8,
                    32u8,
                    39u8,
                ];
                proof {
                    assert(message@ =~= unknown_extension_text());
                }
                append_bytes(&mut message, ext.as_slice());
                let middle: Vec<u8> = vec![
                    39u8,
                    32u8,
                    102u8,
                    111u8,
                    114u8,
                    32u8,
                    102u8,
                    105u8,
                    108u8,
                    101u8,
                    32u8,
                    39u8,
                ];
                proof {
                    assert(middle@ =~= for_file_text());
                }
                append_bytes(&mut message, middle.as_slice());
                append_bytes(&mut message, self.name.as_slice());
                message.push(39u8);
                proof {
                    assert(message@ =~= self.spec_message());
                }
                message
            },
            None => {
                let mut message: Vec<u8> = vec![
                    78u8,
                    111u8,
                    32u8,
                    101u8,
                    120u8,
                    116u8,
                    101u8,
                    110u8,
                    115u8,
                    105u8,
                    111u8,
                    110u8,
                    32u8,
                    116u8,
                    111u8,
                    32u8,
                    102u8,
                    105u8,
                    108u8,
                    101u8,
                    58u8,
                    32u8,
                ];
                proof {
                    assert(message@ =~= no_extension_text());
                }
                append_bytes(&mut message, self.name.as_slice());
                message
            },
        }
    }

    /// Creates the error for the file `name` with the extension `ext`.
    pub fn new(name: Vec<u8>, ext: Option<Vec<u8>>) -> (error: UnknownFileType)
        ensures
            error.name == name,
            error.ext == ext,
    {
        UnknownFileType { name, ext }
    }
}

/// The formats of the files that hold a grid.
#[derive(Debug, PartialEq, Eq, Clone, Copy, Structural)]
pub enum GridFileType {
    /// The format that this toolkit writes: the SU2 text under another
    /// extension.
    Native,
    /// The SU2 text format.
    Su2,
}

/// The bytes `su2`.
pub open spec fn su2_extension() -> Seq<u8> {
    seq![115u8, 117u8, 50u8]
}

/// The bytes `grid`.
pub open spec fn native_extension() -> Seq<u8> {
    seq![103u8, 114u8, 105u8, 100u8]
}

/// The extension of a file name: what follows the last `.` of the part after
/// the last `/`. A name has none where that part holds no `.`, or none but
/// its first byte.
pub open spec fn spec_extension(name: Seq<u8>) -> Option<Seq<u8>> {
    let part = after_last(name, 47u8);
    let ext = after_last(part, 46u8);
    if ext.len() + 1 < part.len() {
        Some(ext)
    } else {
        None
    }
}

/// The format that a file name stands for.
pub open spec fn spec_file_type(name: Seq<u8>) -> Option<GridFileType> {
    match spec_extension(name) {
        None => None,
        Some(ext) => if ext == su2_extension() {
            Some(GridFileType::Su2)
        } else if ext == native_extension() {
            Some(GridFileType::Native)
        } else {
            None
        },
    }
}

/// The extension of a file name.
pub fn file_extension(name: &[u8]) -> (ext: Option<Vec<u8>>)
    ensures
        match spec_extension(name@) {
            Some(expected) => ext matches Some(found) && found@ == expected,
            None => ext is None,
        },
{
    let part = crate::common::text::text_after_last(name, 47u8);
    let ext = crate::common::text::text_after_last(part.as_slice(), 46u8);
    if ext.len() < part.len() && ext.len() + 1 < part.len() {
        Some(ext)
    } else {
        None
    }
}

impl GridFileType {
    /// The extension of the files of the format, in contracts.
    pub open spec fn spec_extension(self) -> Seq<u8> {
        match self {
            GridFileType::Native => native_extension(),
            GridFileType::Su2 => su2_extension(),
        }
    }

    /// The format that the extension of a file name stands for: `su2` for
    /// the SU2 format, `grid` for the native one. Any other name is an error
    /// that holds the name and its extension.
    pub fn from_file_name(file_name: &[u8]) -> (file_type: Result<GridFileType, UnknownFileType>)
        ensures
            match spec_file_type(file_name@) {
                Some(expected) => file_type matches Ok(found) && found == expected,
                None => file_type matches Err(error) && error.name@ == file_name@ && match (
                    error.ext,
                    spec_extension(file_name@),
                ) {
                    (Some(found), Some(expected)) => found@ == expected,
                    (None, None) => true,
                    _ => false,
                },
            },
    {
        let ext = file_extension(file_name);
        let su2: Vec<u8> = vec![115u8, 117u8, 50u8];
        let native: Vec<u8> = vec![103u8, 114u8, 105u8, 100u8];
        proof {
            assert(su2@ =~= su2_extension());
            assert(native@ =~= native_extension());
        }
        match ext {
            Some(found) => {
                if bytes_equal(found.as_slice(), su2.as_slice()) {
                    Ok(GridFileType::Su2)
                } else if bytes_equal(found.as_slice(), native.as_slice()) {
                    Ok(GridFileType::Native)
                } else {
                    let name = copy_range(file_name, 0, file_name.len());
                    proof {
                        assert(name@ =~= file_name@);
                    }
                    Err(UnknownFileType::new(name, Some(found)))
                }
            },
            None => {
                let name = copy_range(file_name, 0, file_name.len());
                proof {
                    assert(name@ =~= file_name@);
                }
                Err(UnknownFileType::new(name, None))
            },
        }
    }

    /// The extension of the files of the format.
    pub fn extension(&self) -> (ext: Vec<u8>)
        ensures
            ext@ == self.spec_extension(),
    {
        match self {
            GridFileType::Native => {
                let ext: Vec<u8> = vec![103u8, 114u8, 105u8, 100u8];
                proof {
                    assert(ext@ =~= native_extension());
                }
                ext
            },
            GridFileType::Su2 => {
                let ext: Vec<u8> = vec![115u8, 117u8, 50u8];
                proof {
                    assert(ext@ =~= su2_extension());
                }
                ext
            },
        }
    }
}

/// The positions of the vertices of a block.
pub open spec fn block_points<V: Vertex>(vertices: Seq<V>) -> Seq<Vector3> {
    Seq::new(vertices.len(), |i: int| vertices[i].spec_pos())
}

/// The cells of a block as a mesh declares them: the shape and the vertices
/// of each.
pub open spec fn block_elements<C: Cell>(cells: Seq<C>) -> Seq<ElementModel> {
    Seq::new(
        cells.len(),
        |i: int| ElementModel { shape: cells[i].spec_shape(), vertex_ids: cells[i].spec_vertex_ids() },
    )
}

/// The edges that the interfaces with the given numbers are; none where a
/// number is not that of an interface, or an interface has not two vertices.
pub open spec fn interface_edges<I: Interface>(interfaces: Seq<I>, ids: Seq<usize>) -> Option<
    Seq<(usize, usize)>,
>
    decreases ids.len(),
{
    if ids.len() == 0 {
        Some(Seq::empty())
    } else {
        match interface_edges(interfaces, ids.drop_last()) {
            None => None,
            Some(edges) => {
                let id = ids.last() as int;
                if id < interfaces.len() && interfaces[id].spec_vertex_ids().len() == 2 {
                    Some(
                        edges.push(
                            (
                                interfaces[id].spec_vertex_ids()[0],
                                interfaces[id].spec_vertex_ids()[1],
                            ),
                        ),
                    )
                } else {
                    None
                }
            },
        }
    }
}

/// The boundaries of a block as a mesh declares them: the name and the edges
/// of each.
pub open spec fn block_markers<I: Interface>(interfaces: Seq<I>, boundaries: Seq<Boundary>) -> Option<
    Seq<MarkerModel>,
>
    decreases boundaries.len(),
{
    if boundaries.len() == 0 {
        Some(Seq::empty())
    } else {
        match block_markers(interfaces, boundaries.drop_last()) {
            None => None,
            Some(markers) => match interface_edges(interfaces, boundaries.last().interfaces@) {
                None => None,
                Some(edges) => Some(markers.push(MarkerModel { tag: boundaries.last().tag@, edges })),
            },
        }
    }
}

/// The mesh that declares a block: its vertices, its cells, and its
/// boundaries by the vertices of their interfaces. There is none where a
/// boundary refers to an interface that the block does not have.
pub open spec fn spec_mesh_of<V: Vertex, I: Interface, C: Cell, B: Block<V, I, C>>(
    block: &B,
) -> Option<MeshModel> {
    match block_markers(block.spec_interfaces(), block.spec_boundaries()) {
        None => None,
        Some(markers) => Some(
            MeshModel {
                dimensions: block.spec_dimensions(),
                points: block_points(block.spec_vertices()),
                elements: block_elements(block.spec_cells()),
                markers,
            },
        ),
    }
}

/// Once an interface of a boundary is missing, no longer list of numbers
/// gives edges.
pub proof fn lemma_interface_edges_none_sticks<I: Interface>(
    interfaces: Seq<I>,
    ids: Seq<usize>,
    k: int,
)
    requires
        0 <= k <= ids.len(),
        interface_edges(interfaces, ids.take(k)) is None,
    ensures
        interface_edges(interfaces, ids) is None,
    decreases ids.len() - k,
{
    if k == ids.len() {
        assert(ids.take(k) =~= ids);
    } else {
        assert(ids.take(k + 1).drop_last() =~= ids.take(k));
        lemma_interface_edges_none_sticks(interfaces, ids, k + 1);
    }
}

/// Once a boundary has no edges, no longer list of boundaries gives
/// markers.
pub proof fn lemma_block_markers_none_sticks<I: Interface>(
    interfaces: Seq<I>,
    boundaries: Seq<Boundary>,
    k: int,
)
    requires
        0 <= k <= boundaries.len(),
        block_markers(interfaces, boundaries.take(k)) is None,
    ensures
        block_markers(interfaces, boundaries) is None,
    decreases boundaries.len() - k,
{
    if k == boundaries.len() {
        assert(boundaries.take(k) =~= boundaries);
    } else {
        assert(boundaries.take(k + 1).drop_last() =~= boundaries.take(k));
        lemma_block_markers_none_sticks(interfaces, boundaries, k + 1);
    }
}

/// A copy of a list of numbers.
pub fn copy_ids(ids: &Vec<usize>) -> (copy: Vec<usize>)
    ensures
        copy@ == ids@,
{
    let n = ids.len();
    let mut copy: Vec<usize> = Vec::with_capacity(n);
    let mut i: usize = 0;
    while i < n
        invariant
            i <= n,
            n == ids@.len(),
            copy@ == ids@.take(i as int),
        decreases n - i,
    {
        copy.push(ids[i]);
        proof {
            assert(ids@.take(i + 1) =~= ids@.take(i as int).push(ids@[i as int]));
        }
        i = i + 1;
    }
    proof {
        assert(ids@.take(n as int) =~= ids@);
    }
    copy
}

/// The edges that the interfaces with the given numbers are.
fn edges_of_boundary<I: Interface>(interfaces: &Vec<I>, ids: &Vec<usize>) -> (edges: Option<
    Vec<(usize, usize)>,
>)
    ensures
        match interface_edges(interfaces@, ids@) {
            Some(expected) => edges matches Some(found) && found@ == expected,
            None => edges is None,
        },
{
    let n = ids.len();
    let count = interfaces.len();
    let mut edges: Vec<(usize, usize)> = Vec::with_capacity(n);
    let mut i: usize = 0;
    proof {
        assert(ids@.take(0) =~= Seq::<usize>::empty());
    }
    while i < n
        invariant
            i <= n,
            n == ids@.len(),
            count == interfaces@.len(),
            interface_edges(interfaces@, ids@.take(i as int)) == Some(edges@),
        decreases n - i,
    {
        let id = ids[i];
        proof {
            assert(ids@.take(i + 1).drop_last() =~= ids@.take(i as int));
            assert(ids@.take(i + 1).last() == id);
        }
        if id >= count {
            proof {
                lemma_interface_edges_none_sticks(interfaces@, ids@, i + 1);
            }
            return None;
        }
        let vertex_ids = interfaces[id].vertex_ids();
        if vertex_ids.len() != 2 {
            proof {
                lemma_interface_edges_none_sticks(interfaces@, ids@, i + 1);
            }
            return None;
        }
        edges.push((vertex_ids[0], vertex_ids[1]));
        i = i + 1;
    }
    proof {
        assert(ids@.take(n as int) =~= ids@);
    }
    Some(edges)
}

/// The mesh that declares a block, whatever keeps the block.
pub fn mesh_of_block<V: Vertex, I: Interface, C: Cell, B: Block<V, I, C>>(block: &B) -> (mesh:
    Result<Su2Mesh, BlockError>)
    ensures
        match spec_mesh_of(block) {
            Some(expected) => mesh matches Ok(found) && found@ == expected,
            None => mesh matches Err(e) && e == BlockError::InvalidReference,
        },
{
    let vertices = block.vertices();
    let n = vertices.len();
    let mut points: Vec<Vector3> = Vec::with_capacity(n);
    let mut i: usize = 0;
    while i < n
        invariant
            i <= n,
            n == vertices@.len(),
            points@.len() == i,
            forall|j: int| 0 <= j < i ==> points@[j] == (#[trigger] vertices@[j]).spec_pos(),
        decreases n - i,
    {
        points.push(*vertices[i].pos());
        i = i + 1;
    }
    let cells = block.cells();
    let m = cells.len();
    let mut elements: Vec<Su2Element> = Vec::with_capacity(m);
    let mut i: usize = 0;
    while i < m
        invariant
            i <= m,
            m == cells@.len(),
            elements@.len() == i,
            forall|j: int|
                0 <= j < i ==> (#[trigger] elements@[j])@ == (ElementModel {
                    shape: cells@[j].spec_shape(),
                    vertex_ids: cells@[j].spec_vertex_ids(),
                }),
        decreases m - i,
    {
        let shape = *cells[i].shape();
        let vertex_ids = copy_ids(cells[i].vertex_ids());
        elements.push(Su2Element { shape, vertex_ids });
        i = i + 1;
    }
    let interfaces = block.interfaces();
    let boundaries = block.boundaries();
    let k = boundaries.len();
    let mut markers: Vec<Su2Marker> = Vec::with_capacity(k);
    let mut i: usize = 0;
    proof {
        assert(boundaries@.take(0) =~= Seq::<Boundary>::empty());
        assert(marker_views(markers@) =~= Seq::<MarkerModel>::empty());
    }
    while i < k
        invariant
            i <= k,
            k == boundaries@.len(),
            interfaces@ == block.spec_interfaces(),
            boundaries@ == block.spec_boundaries(),
            block_markers(interfaces@, boundaries@.take(i as int)) == Some(
                marker_views(markers@),
            ),
        decreases k - i,
    {
        proof {
            assert(boundaries@.take(i + 1).drop_last() =~= boundaries@.take(i as int));
            assert(boundaries@.take(i + 1).last() == boundaries@[i as int]);
        }
        match edges_of_boundary(interfaces, &boundaries[i].interfaces) {
            None => {
                proof {
                    lemma_block_markers_none_sticks(interfaces@, boundaries@, i + 1);
                }
                return Err(BlockError::InvalidReference);
            },
            Some(edges) => {
                let tag = copy_range(boundaries[i].tag.as_slice(), 0, boundaries[i].tag.len());
                proof {
                    assert(tag@ =~= boundaries@[i as int].tag@);
                }
                let ghost before = marker_views(markers@);
                let marker = Su2Marker { tag, edges };
                markers.push(marker);
                proof {
                    assert(marker_views(markers@) =~= before.push(marker@));
                }
            },
        }
        i = i + 1;
    }
    proof {
        assert(boundaries@.take(k as int) =~= boundaries@);
        assert(points@ =~= block_points(vertices@));
        assert(element_views(elements@) =~= block_elements(cells@));
    }
    Ok(Su2Mesh { dimensions: block.dimensions(), points, elements, markers })
}

/// The text of a block in the format that the name of a file stands for.
///
/// Both formats are the SU2 text. A name that stands for no format is an
/// error, and so is a block with a boundary on an interface that it does not
/// have.
pub fn write_block<V: Vertex, I: Interface, C: Cell, B: Block<V, I, C>>(
    block: &B,
    file_name: &[u8],
) -> (text: Result<Vec<u8>, BlockError>)
    ensures
        match (spec_file_type(file_name@), spec_mesh_of(block)) {
            (None, _) => text matches Err(BlockError::UnknownFileType(error)) && error.name@
                == file_name@,
            (Some(_), None) => text matches Err(e) && e == BlockError::InvalidReference,
            (Some(_), Some(mesh)) => text matches Ok(found) && found@ == spec_write_su2(mesh),
        },
{
    match GridFileType::from_file_name(file_name) {
        Err(error) => Err(BlockError::UnknownFileType(error)),
        Ok(_) => match mesh_of_block(block) {
            Err(e) => Err(e),
            Ok(mesh) => Ok(write_su2(&mesh)),
        },
    }
}

/// Whether every number of a list is below `limit`.
pub fn all_below(ids: &[usize], limit: usize) -> (below: bool)
    ensures
        below == ids_in_range(ids@, limit as int),
{
    let n = ids.len();
    let mut i: usize = 0;
    while i < n
        invariant
            i <= n,
            n == ids@.len(),
            forall|j: int| 0 <= j < i ==> #[trigger] ids@[j] < limit,
        decreases n - i,
    {
        if ids[i] >= limit {
            return false;
        }
        i = i + 1;
    }
    true
}

/// Whether every vertex of a list has the number of its place.
pub fn check_vertices(vertices: &Vec<GridVertex>) -> (dense: bool)
    ensures
        dense == vertices_dense(vertices@),
{
    let n = vertices.len();
    let mut i: usize = 0;
    while i < n
        invariant
            i <= n,
            n == vertices@.len(),
            forall|j: int|
                0 <= j < i ==> (#[trigger] vertices@[j]).spec_id() == j
                    && vertices@[j].well_formed(),
        decreases n - i,
    {
        let vertex = &vertices[i];
        proof {
            use_type_invariant(vertex);
        }
        if vertex.id() != i {
            return false;
        }
        i = i + 1;
    }
    true
}

/// Whether every interface of a list stands at the place of its number and
/// joins vertices that are there.
pub fn check_interfaces(interfaces: &Vec<GridInterface>, vertex_count: usize) -> (sound: bool)
    ensures
        sound == interfaces_well_formed(interfaces@, vertex_count as int),
{
    let n = interfaces.len();
    let mut k: usize = 0;
    while k < n
        invariant
            k <= n,
            n == interfaces@.len(),
            forall|j: int|
                0 <= j < k ==> {
                    &&& (#[trigger] interfaces@[j]).spec_id() == j
                    &&& interfaces@[j].well_formed()
                    &&& ids_in_range(interfaces@[j].spec_vertex_ids(), vertex_count as int)
                },
        decreases n - k,
    {
        let interface = &interfaces[k];
        proof {
            use_type_invariant(interface);
        }
        if interface.id() != k || !all_below(interface.vertex_ids().as_slice(), vertex_count) {
            return false;
        }
        k = k + 1;
    }
    true
}

/// Whether every cell of a list stands at the place of its number and has
/// vertices and interfaces that are there.
pub fn check_cells(cells: &Vec<GridCell>, vertex_count: usize, interface_count: usize) -> (sound:
    bool)
    ensures
        sound == cells_well_formed(cells@, vertex_count as int, interface_count as int),
{
    let n = cells.len();
    let mut i: usize = 0;
    while i < n
        invariant
            i <= n,
            n == cells@.len(),
            forall|j: int|
                0 <= j < i ==> {
                    &&& (#[trigger] cells@[j]).spec_id() == j
                    &&& cells@[j].well_formed()
                    &&& ids_in_range(cells@[j].spec_vertex_ids(), vertex_count as int)
                    &&& ids_in_range(cells@[j].spec_interface_ids(), interface_count as int)
                },
        decreases n - i,
    {
        let cell = &cells[i];
        proof {
            use_type_invariant(cell);
        }
        let interface_ids = cell.interface_ids();
        if cell.id() != i || !all_below(cell.vertex_ids().as_slice(), vertex_count) || !all_below(
            interface_ids.as_slice(),
            interface_count,
        ) {
            return false;
        }
        i = i + 1;
    }
    true
}

/// Whether every boundary of a list lies on interfaces that are there.
pub fn check_boundaries(boundaries: &Vec<Boundary>, interface_count: usize) -> (sound: bool)
    ensures
        sound == boundaries_well_formed(boundaries@, interface_count as int),
{
    let n = boundaries.len();
    let mut b: usize = 0;
    while b < n
        invariant
            b <= n,
            n == boundaries@.len(),
            forall|j: int|
                0 <= j < b ==> ids_in_range(
                    (#[trigger] boundaries@[j]).interfaces@,
                    interface_count as int,
                ),
        decreases n - b,
    {
        if !all_below(boundaries[b].interfaces.as_slice(), interface_count) {
            return false;
        }
        b = b + 1;
    }
    true
}

impl GridBlock {
    /// Puts a block together from its parts.
    ///
    /// The parts are refused where they do not fit together: where the
    /// number of dimensions is neither 2 nor 3, a part does not stand at the
    /// place of its number, or a part goes by the number of a part that is
    /// not there.
    pub fn new(
        vertices: Vec<GridVertex>,
        interfaces: Vec<GridInterface>,
        cells: Vec<GridCell>,
        boundaries: Vec<Boundary>,
        dimensions: u8,
        id: usize,
    ) -> (block: Result<GridBlock, BlockError>)
        ensures
            parts_well_formed(vertices@, interfaces@, cells@, boundaries@, dimensions)
                <==> block is Ok,
            block matches Err(e) ==> e == BlockError::InvalidReference,
            block matches Ok(built) ==> {
                &&& built.spec_vertices() == vertices@
                &&& built.spec_interfaces() == interfaces@
                &&& built.spec_cells() == cells@
                &&& built.spec_boundaries() == boundaries@
                &&& built.spec_dimensions() == dimensions
                &&& built.spec_block_id() == id
            },
    {
        if dimensions != 2 && dimensions != 3 {
            return Err(BlockError::InvalidReference);
        }
        let vertex_count = vertices.len();
        let interface_count = interfaces.len();
        if !check_vertices(&vertices) || !check_interfaces(&interfaces, vertex_count)
            || !check_cells(&cells, vertex_count, interface_count) || !check_boundaries(
            &boundaries,
            interface_count,
        ) {
            return Err(BlockError::InvalidReference);
        }
        Ok(GridBlock { vertices, interfaces, cells, boundaries, dimensions, id })
    }

    /// The mesh that declares the block: its vertices, its cells by their
    /// shapes and vertices, and its boundaries by the vertices of their
    /// interfaces.
    pub fn to_mesh(&self) -> (mesh: Su2Mesh)
        ensures
            spec_mesh_of(self) == Some(mesh@),
            mesh@ == model_mesh(self.model()),
    {
        proof {
            use_type_invariant(self);
            crate::grid::su2_proofs::lemma_mesh_of_block(self);
            lemma_block_has_mesh(
                self.spec_interfaces(),
                self.spec_boundaries(),
                self.spec_boundaries().len() as int,
            );
            assert(self.spec_boundaries().take(self.spec_boundaries().len() as int)
                =~= self.spec_boundaries());
        }
        match mesh_of_block(self) {
            Ok(mesh) => mesh,
            Err(_) => {
                proof {
                    assert(false);
                }
                Su2Mesh {
                    dimensions: self.dimensions,
                    points: Vec::new(),
                    elements: Vec::new(),
                    markers: Vec::new(),
                }
            },
        }
    }

    /// The interfaces on the boundary with the given name, where the block
    /// has one: those of the first boundary of that name.
    pub fn boundary(&self, tag: &[u8]) -> (interfaces: Option<&Vec<usize>>)
        ensures
            match first_with_tag(self.spec_boundaries(), tag@) {
                Some(i) => interfaces == Some(&self.spec_boundaries()[i].interfaces),
                None => interfaces is None,
            },
    {
        let n = self.boundaries.len();
        let mut i: usize = 0;
        proof {
            assert(self.boundaries@.take(0) =~= Seq::<Boundary>::empty());
        }
        while i < n
            invariant
                i <= n,
                n == self.boundaries@.len(),
                first_with_tag(self.boundaries@.take(i as int), tag@) is None,
            decreases n - i,
        {
            proof {
                assert(self.boundaries@.take(i + 1).drop_last() =~= self.boundaries@.take(i as int));
                assert(self.boundaries@.take(i + 1).last() == self.boundaries@[i as int]);
            }
            if bytes_equal(self.boundaries[i].tag.as_slice(), tag) {
                proof {
                    lemma_first_with_tag_sticks(self.boundaries@, tag@, i + 1);
                }
                return Some(&self.boundaries[i].interfaces);
            }
            i = i + 1;
        }
        proof {
            assert(self.boundaries@.take(n as int) =~= self.boundaries@);
        }
        None
    }
}

/// The place of the first boundary with the given name in a list.
pub open spec fn first_with_tag(boundaries: Seq<Boundary>, tag: Seq<u8>) -> Option<int>
    decreases boundaries.len(),
{
    if boundaries.len() == 0 {
        None
    } else {
        match first_with_tag(boundaries.drop_last(), tag) {
            Some(i) => Some(i),
            None => if boundaries.last().tag@ == tag {
                Some(boundaries.len() - 1)
            } else {
                None
            },
        }
    }
}

/// The first boundary of a name in a list stays the first in every longer
/// list.
pub proof fn lemma_first_with_tag_sticks(boundaries: Seq<Boundary>, tag: Seq<u8>, k: int)
    requires
        0 <= k <= boundaries.len(),
        first_with_tag(boundaries.take(k), tag) is Some,
    ensures
        first_with_tag(boundaries, tag) == first_with_tag(boundaries.take(k), tag),
    decreases boundaries.len() - k,
{
    if k == boundaries.len() {
        assert(boundaries.take(k) =~= boundaries);
    } else {
        assert(boundaries.take(k + 1).drop_last() =~= boundaries.take(k));
        lemma_first_with_tag_sticks(boundaries, tag, k + 1);
    }
}

/// Boundaries that lie on interfaces of two vertices each can be declared by
/// the vertices of their edges.
pub proof fn lemma_block_has_mesh(interfaces: Seq<GridInterface>, boundaries: Seq<Boundary>, k: int)
    requires
        0 <= k <= boundaries.len(),
        boundaries_well_formed(boundaries, interfaces.len() as int),
        forall|i: int| 0 <= i < interfaces.len() ==> (#[trigger] interfaces[i]).well_formed(),
    ensures
        block_markers(interfaces, boundaries.take(k)) is Some,
    decreases k,
{
    if k > 0 {
        lemma_block_has_mesh(interfaces, boundaries, k - 1);
        assert(boundaries.take(k).drop_last() =~= boundaries.take(k - 1));
        let ids = boundaries[k - 1].interfaces@;
        assert(boundaries.take(k).last() == boundaries[k - 1]);
        lemma_interfaces_have_edges(interfaces, ids, ids.len() as int);
        assert(ids.take(ids.len() as int) =~= ids);
    }
}

/// Numbers of interfaces of two vertices each give edges.
pub proof fn lemma_interfaces_have_edges(interfaces: Seq<GridInterface>, ids: Seq<usize>, k: int)
    requires
        0 <= k <= ids.len(),
        ids_in_range(ids, interfaces.len() as int),
        forall|i: int| 0 <= i < interfaces.len() ==> (#[trigger] interfaces[i]).well_formed(),
    ensures
        interface_edges(interfaces, ids.take(k)) is Some,
    decreases k,
{
    if k > 0 {
        lemma_interfaces_have_edges(interfaces, ids, k - 1);
        assert(ids.take(k).drop_last() =~= ids.take(k - 1));
        assert(ids.take(k).last() == ids[k - 1]);
        assert(ids[k - 1] < interfaces.len());
    }
}

/// The digits of a number, with zeros before them up to four digits.
pub open spec fn four_digits(n: nat) -> Seq<u8> {
    let digits = nat_digits(n);
    if digits.len() < 4 {
        Seq::new((4 - digits.len()) as nat, |i: int| 48u8) + digits
    } else {
        digits
    }
}

/// The name of the file that the block with the number `id` is written to:
/// `block_`, the number in at least four digits, and the native extension.
pub open spec fn block_file_name(id: usize) -> Seq<u8> {
    seq![98u8, 108u8, 111u8, 99u8, 107u8, 95u8] + four_digits(id as nat) + seq![46u8]
        + native_extension()
}

/// The digits of a number, with zeros before them up to four digits.
pub fn make_four_digits(n: usize) -> (text: Vec<u8>)
    ensures
        text@ == four_digits(n as nat),
{
    let digits = format_usize(n);
    let mut text: Vec<u8> = Vec::new();
    let mut missing: usize = if digits.len() < 4 {
        4 - digits.len()
    } else {
        0
    };
    let ghost zeros = missing as nat;
    while missing > 0
        invariant
            missing <= zeros,
            text@ == Seq::new((zeros - missing) as nat, |i: int| 48u8),
        decreases missing,
    {
        text.push(48u8);
        missing = missing - 1;
        proof {
            assert(text@ =~= Seq::new((zeros - missing) as nat, |i: int| 48u8));
        }
    }
    append_bytes(&mut text, digits.as_slice());
    proof {
        if digits@.len() >= 4 {
            assert(Seq::new(0nat, |i: int| 48u8) + digits@ =~= digits@);
        }
    }
    text
}

/// The name of the file that the block with the number `id` is written to.
pub fn make_block_file_name(id: usize) -> (name: Vec<u8>)
    ensures
        name@ == block_file_name(id),
{
    let mut name: Vec<u8> = vec![98u8, 108u8, 111u8, 99u8, 107u8, 95u8];
    let digits = make_four_digits(id);
    append_bytes(&mut name, digits.as_slice());
    name.push(46u8);
    let ext = GridFileType::Native.extension();
    append_bytes(&mut name, ext.as_slice());
    proof {
        assert(name@ =~= block_file_name(id));
    }
    name
}

/// A copy of a list of numbers.
pub fn copy_id_slice(ids: &[usize]) -> (copy: Vec<usize>)
    ensures
        copy@ == ids@,
{
    let n = ids.len();
    let mut copy: Vec<usize> = Vec::with_capacity(n);
    let mut i: usize = 0;
    while i < n
        invariant
            i <= n,
            n == ids@.len(),
            copy@ == ids@.take(i as int),
        decreases n - i,
    {
        copy.push(ids[i]);
        proof {
            assert(ids@.take(i + 1) =~= ids@.take(i as int).push(ids@[i as int]));
        }
        i = i + 1;
    }
    proof {
        assert(ids@.take(n as int) =~= ids@);
    }
    copy
}

/// The four digits of a number are digits.
pub proof fn lemma_four_digits(n: nat)
    ensures
        four_digits(n).len() >= 1,
        forall|i: int|
            0 <= i < four_digits(n).len() ==> crate::common::number::is_digit(
                #[trigger] four_digits(n)[i],
            ),
{
    crate::common::number::lemma_nat_digits(n);
    let digits = nat_digits(n);
    let all = four_digits(n);
    assert forall|i: int| 0 <= i < all.len() implies crate::common::number::is_digit(
        #[trigger] all[i],
    ) by {
        if digits.len() < 4 {
            if i >= 4 - digits.len() {
                assert(all[i] == digits[i - (4 - digits.len())]);
            }
        }
    }
}

/// A name that ends with `.` and the native extension, after a stem without
/// `.` and `/`, stands for the native format.
pub proof fn lemma_native_name(stem: Seq<u8>)
    requires
        stem.len() > 0,
        forall|i: int| 0 <= i < stem.len() ==> #[trigger] stem[i] != 46 && stem[i] != 47,
    ensures
        spec_file_type(stem + seq![46u8] + native_extension()) == Some(GridFileType::Native),
{
    let name = stem + seq![46u8] + native_extension();
    let ext = native_extension();
    assert forall|i: int| 0 <= i < name.len() implies #[trigger] name[i] != 47 by {
        if i < stem.len() {
            assert(name[i] == stem[i]);
        } else if i > stem.len() {
            assert(name[i] == ext[i - stem.len() - 1]);
        }
    }
    crate::common::text::lemma_after_last_whole(name, 47u8);
    assert(!crate::common::text::holds(ext, 46u8)) by {
        if crate::common::text::holds(ext, 46u8) {
            let i = choose|i: int| 0 <= i < ext.len() && #[trigger] ext[i] == 46u8;
        }
    }
    crate::common::text::lemma_after_last_of_concat(stem + seq![46u8], ext, 46u8);
    assert((stem + seq![46u8]) + ext =~= name);
}

/// A file to write: its name and its text.
#[derive(Debug, PartialEq, Eq)]
pub struct BlockFile {
    /// The name of the file.
    pub name: Vec<u8>,
    /// The text of the file.
    pub text: Vec<u8>,
}

/// The blocks of a grid, in the order in which they were read.
#[derive(Debug)]
pub struct BlockCollection {
    blocks: Vec<GridBlock>,
}

impl BlockCollection {
    /// The blocks, in contracts.
    pub closed spec fn spec_blocks(&self) -> Seq<GridBlock> {
        self.blocks@
    }

    /// Every block has the number of its place in the collection.
    pub open spec fn well_formed(&self) -> bool {
        forall|i: int|
            0 <= i < self.spec_blocks().len() ==> (#[trigger] self.spec_blocks()[i]).spec_block_id()
                == i
    }

    /// A collection without blocks.
    pub fn new() -> (collection: BlockCollection)
        ensures
            collection.spec_blocks().len() == 0,
            collection.well_formed(),
    {
        BlockCollection { blocks: Vec::new() }
    }

    /// The number of blocks.
    pub fn len(&self) -> (len: usize)
        ensures
            len == self.spec_blocks().len(),
    {
        self.blocks.len()
    }

    /// Reads a block from the text of a file and adds it to the collection,
    /// under the number that is the number of blocks before.
    ///
    /// The format follows from the name of the file. Where the name stands
    /// for no format, or the text is no mesh that a block can be built from,
    /// the collection stays as it is.
    pub fn add_block(&mut self, file_name: &[u8], contents: &[u8]) -> (added: Result<
        (),
        BlockError,
    >)
        ensures
            old(self).well_formed() ==> final(self).well_formed(),
            match (spec_file_type(file_name@), spec_read_su2(contents@)) {
                (None, _) => added matches Err(BlockError::UnknownFileType(error)) && error.name@
                    == file_name@ && final(self).spec_blocks() == old(self).spec_blocks(),
                (Some(_), Err(e)) => added matches Err(BlockError::Mesh(found)) && found == e
                    && final(self).spec_blocks() == old(self).spec_blocks(),
                (Some(_), Ok(model)) => {
                    let block = final(self).spec_blocks().last();
                    &&& added is Ok
                    &&& final(self).spec_blocks().len() == old(self).spec_blocks().len() + 1
                    &&& final(self).spec_blocks().drop_last() == old(self).spec_blocks()
                    &&& block.model() == model
                    &&& block.spec_block_id() == old(self).spec_blocks().len()
                    &&& block.consistent()
                },
            },
    {
        match GridFileType::from_file_name(file_name) {
            Err(error) => Err(BlockError::UnknownFileType(error)),
            Ok(_) => {
                let id = self.blocks.len();
                match read_su2(contents, id) {
                    Err(e) => Err(BlockError::Mesh(e)),
                    Ok(block) => {
                        let ghost before = self.blocks@;
                        let ghost added = block;
                        self.blocks.push(block);
                        proof {
                            assert(self.blocks@.drop_last() =~= before);
                            assert(before == old(self).spec_blocks());
                            if old(self).well_formed() {
                                assert forall|i: int| 0 <= i < self.blocks@.len() implies (
                                #[trigger] self.blocks@[i]).spec_block_id() == i by {
                                    if i < before.len() {
                                        assert(self.blocks@[i] == before[i]);
                                        assert(old(self).spec_blocks()[i].spec_block_id() == i);
                                    } else {
                                        assert(self.blocks@[i] == added);
                                    }
                                }
                            }
                        }
                        Ok(())
                    },
                }
            },
        }
    }

    /// The block with the given number.
    pub fn get_block(&self, id: usize) -> (block: &GridBlock)
        requires
            id < self.spec_blocks().len(),
        ensures
            *block == self.spec_blocks()[id as int],
    {
        &self.blocks[id]
    }

    /// The blocks, in the order of their numbers.
    pub fn blocks(&self) -> (blocks: &Vec<GridBlock>)
        ensures
            blocks@ == self.spec_blocks(),
    {
        &self.blocks
    }

    /// The files that hold the blocks in the native format: for every block
    /// the name of its file and its text.
    pub fn write_blocks(&self) -> (files: Vec<BlockFile>)
        ensures
            files@.len() == self.spec_blocks().len(),
            forall|i: int|
                0 <= i < files@.len() ==> {
                    let block = self.spec_blocks()[i];
                    &&& (#[trigger] files@[i]).name@ == block_file_name(block.spec_block_id())
                    &&& spec_mesh_of(&block) matches Some(mesh) && files@[i].text@
                        == spec_write_su2(mesh)
                },
    {
        let n = self.blocks.len();
        let mut files: Vec<BlockFile> = Vec::with_capacity(n);
        let mut i: usize = 0;
        while i < n
            invariant
                i <= n,
                n == self.blocks@.len(),
                files@.len() == i,
                forall|j: int|
                    0 <= j < i ==> {
                        let block = self.blocks@[j];
                        &&& (#[trigger] files@[j]).name@ == block_file_name(block.spec_block_id())
                        &&& spec_mesh_of(&block) matches Some(mesh) && files@[j].text@
                            == spec_write_su2(mesh)
                    },
            decreases n - i,
        {
            let block = &self.blocks[i];
            let name = make_block_file_name(block.id());
            let mesh = block.to_mesh();
            let text = write_su2(&mesh);
            files.push(BlockFile { name, text });
            i = i + 1;
        }
        files
    }
}

impl Default for BlockCollection {
    fn default() -> (collection: BlockCollection)
        ensures
            collection.spec_blocks().len() == 0,
    {
        BlockCollection::new()
    }
}

/// What the boundaries of a mesh give: as many boundaries as were declared,
/// each with its name and the interfaces that its edges are.
pub proof fn lemma_boundaries_built(
    point_count: int,
    edges: Seq<(usize, usize)>,
    markers: Seq<MarkerModel>,
)
    requires
        spec_boundaries(point_count, edges, markers) is Ok,
    ensures
        ({
            let built = spec_boundaries(point_count, edges, markers).unwrap();
            &&& built.len() == markers.len()
            &&& forall|b: int|
                0 <= b < markers.len() ==> (#[trigger] built[b]).tag == markers[b].tag
                    && spec_boundary_ids(point_count, edges, markers[b].edges) == Ok::<
                    Seq<usize>,
                    Su2Error,
                >(built[b].interfaces)
        }),
    decreases markers.len(),
{
    if markers.len() > 0 {
        let shorter = markers.drop_last();
        lemma_boundaries_built(point_count, edges, shorter);
        let before = spec_boundaries(point_count, edges, shorter).unwrap();
        let built = spec_boundaries(point_count, edges, markers).unwrap();
        assert forall|b: int| 0 <= b < markers.len() implies (#[trigger] built[b]).tag
            == markers[b].tag && spec_boundary_ids(point_count, edges, markers[b].edges) == Ok::<
            Seq<usize>,
            Su2Error,
        >(built[b].interfaces) by {
            if b < shorter.len() {
                assert(built[b] == before[b]);
                assert(shorter[b] == markers[b]);
            }
        }
    }
}

/// The interfaces of a boundary are found for its edges one by one.
pub proof fn lemma_boundary_ids_each(
    point_count: int,
    edges: Seq<(usize, usize)>,
    boundary: Seq<(usize, usize)>,
)
    requires
        spec_boundary_ids(point_count, edges, boundary) is Ok,
        edges.len() <= usize::MAX,
    ensures
        ({
            let ids = spec_boundary_ids(point_count, edges, boundary).unwrap();
            &&& ids.len() == boundary.len()
            &&& forall|j: int|
                0 <= j < boundary.len() ==> (#[trigger] boundary[j]).0 < point_count
                    && boundary[j].1 < point_count && edge_position(
                    edges,
                    boundary[j].0,
                    boundary[j].1,
                ) == Some(ids[j] as int) && ids[j] < edges.len()
        }),
    decreases boundary.len(),
{
    if boundary.len() > 0 {
        let shorter = boundary.drop_last();
        lemma_boundary_ids_each(point_count, edges, shorter);
        lemma_boundary_ids_in_range(point_count, edges, boundary);
        let before = spec_boundary_ids(point_count, edges, shorter).unwrap();
        let ids = spec_boundary_ids(point_count, edges, boundary).unwrap();
        lemma_edge_position(edges, boundary.last().0, boundary.last().1);
        assert forall|j: int| 0 <= j < boundary.len() implies (#[trigger] boundary[j]).0
            < point_count && boundary[j].1 < point_count && edge_position(
            edges,
            boundary[j].0,
            boundary[j].1,
        ) == Some(ids[j] as int) && ids[j] < edges.len() by {
            if j < shorter.len() {
                assert(ids[j] == before[j]);
                assert(shorter[j] == boundary[j]);
            } else {
                assert(boundary[j] == boundary.last());
            }
        }
    }
}

/// Every interface on a boundary of a built block is an interface of the
/// block, and a face of at least one of its cells.
pub proof fn lemma_boundaries_lie_on_cells(mesh: MeshModel)
    requires
        spec_build(mesh) is Ok,
        spec_build(mesh).unwrap().edges.len() <= usize::MAX,
    ensures
        ({
            let block = spec_build(mesh).unwrap();
            forall|b: int, j: int|
                0 <= b < block.boundaries.len() && 0 <= j < block.boundaries[b].interfaces.len()
                    ==> (#[trigger] block.boundaries[b].interfaces[j]) < block.edges.len()
                    && interface_has_cell(block.cells, block.boundaries[b].interfaces[j] as int)
        }),
{
    let block = spec_build(mesh).unwrap();
    let built = spec_cells(mesh.points, mesh.elements).unwrap();
    assert(block.edges == built.0);
    assert(block.cells == built.1);
    let bounds = spec_boundaries(mesh.points.len() as int, block.edges, mesh.markers).unwrap();
    assert(block.boundaries == bounds);
    lemma_cells_built(mesh.points, mesh.elements);
    lemma_boundaries_built(mesh.points.len() as int, block.edges, mesh.markers);
    assert forall|b: int, j: int|
        0 <= b < block.boundaries.len() && 0 <= j < block.boundaries[b].interfaces.len() implies (
    #[trigger] block.boundaries[b].interfaces[j]) < block.edges.len() && interface_has_cell(
        block.cells,
        block.boundaries[b].interfaces[j] as int,
    ) by {
        assert(bounds[b].tag == mesh.markers[b].tag);
        lemma_boundary_ids_each(mesh.points.len() as int, block.edges, mesh.markers[b].edges);
        let id = block.boundaries[b].interfaces[j];
        assert(mesh.markers[b].edges[j].0 < mesh.points.len());
        assert(id < built.0.len());
        assert(interface_has_cell(built.1, id as int));
    }
}

/// Where only one cell of a mesh has a side between the two vertices of a
/// boundary edge, the interface of that edge is a face of exactly one cell
/// of the built block.
pub proof fn lemma_boundary_edge_has_one_cell(mesh: MeshModel, b: int, j: int)
    requires
        spec_build(mesh) is Ok,
        spec_build(mesh).unwrap().edges.len() <= usize::MAX,
        0 <= b < mesh.markers.len(),
        0 <= j < mesh.markers[b].edges.len(),
        forall|i1: int, i2: int|
            0 <= i1 < i2 < mesh.elements.len() ==> !(element_has_side(
                #[trigger] mesh.elements[i1],
                mesh.markers[b].edges[j].0,
                mesh.markers[b].edges[j].1,
            ) && element_has_side(
                #[trigger] mesh.elements[i2],
                mesh.markers[b].edges[j].0,
                mesh.markers[b].edges[j].1,
            )),
    ensures
        ({
            let block = spec_build(mesh).unwrap();
            let id = block.boundaries[b].interfaces[j] as int;
            exists|i: int|
                0 <= i < block.cells.len() && cell_has_face(#[trigger] block.cells[i], id)
                    && forall|other: int|
                    0 <= other < block.cells.len() && other != i ==> !cell_has_face(
                        #[trigger] block.cells[other],
                        id,
                    )
        }),
{
    let block = spec_build(mesh).unwrap();
    let edge = mesh.markers[b].edges[j];
    let built = spec_cells(mesh.points, mesh.elements).unwrap();
    assert(block.edges == built.0);
    assert(block.cells == built.1);
    let bounds = spec_boundaries(mesh.points.len() as int, block.edges, mesh.markers).unwrap();
    assert(block.boundaries == bounds);
    lemma_cells_built(mesh.points, mesh.elements);
    lemma_faces_are_sides(mesh.points, mesh.elements);
    lemma_boundaries_built(mesh.points.len() as int, block.edges, mesh.markers);
    assert(bounds[b].tag == mesh.markers[b].tag);
    lemma_boundary_ids_each(mesh.points.len() as int, block.edges, mesh.markers[b].edges);
    assert(edge.0 < mesh.points.len());
    let id = block.boundaries[b].interfaces[j] as int;
    lemma_edge_position(block.edges, edge.0, edge.1);
    assert(same_edge(block.edges[id], edge.0, edge.1));
    assert(interface_has_cell(block.cells, id));
    let i = choose|i: int| 0 <= i < block.cells.len() && cell_has_face(#[trigger] block.cells[i], id);
    assert forall|other: int| 0 <= other < block.cells.len() && other != i implies !cell_has_face(
        #[trigger] block.cells[other],
        id,
    ) by {
        if cell_has_face(block.cells[other], id) {
            assert(element_has_side(mesh.elements[i], block.edges[id].0, block.edges[id].1));
            assert(element_has_side(mesh.elements[other], block.edges[id].0, block.edges[id].1));
            lemma_side_either_order(mesh.elements[i], block.edges[id], edge);
            lemma_side_either_order(mesh.elements[other], block.edges[id], edge);
            if i < other {
                assert(!(element_has_side(mesh.elements[i], edge.0, edge.1) && element_has_side(
                    mesh.elements[other],
                    edge.0,
                    edge.1,
                )));
            } else {
                assert(!(element_has_side(mesh.elements[other], edge.0, edge.1)
                    && element_has_side(mesh.elements[i], edge.0, edge.1)));
            }
        }
    }
}

/// A cell that has a side between the vertices of one edge has a side
/// between the vertices of every edge that joins the same vertices.
pub proof fn lemma_side_either_order(
    element: ElementModel,
    stored: (usize, usize),
    edge: (usize, usize),
)
    requires
        element_has_side(element, stored.0, stored.1),
        same_edge(stored, edge.0, edge.1),
    ensures
        element_has_side(element, edge.0, edge.1),
{
    let j = choose|j: int|
        0 <= j < element.vertex_ids.len() && same_edge(
            #[trigger] sides_of(element.vertex_ids)[j],
            stored.0,
            stored.1,
        );
    assert(same_edge(sides_of(element.vertex_ids)[j], edge.0, edge.1));
}

/// The mesh that declares a block, from the block in contracts: each
/// cell by its shape and its vertices, each boundary by the vertices of its
/// interfaces.
pub open spec fn model_mesh(block: BlockModel) -> MeshModel {
    MeshModel {
        dimensions: block.dimensions,
        points: block.points,
        elements: Seq::new(
            block.cells.len(),
            |i: int|
                ElementModel { shape: block.cells[i].shape, vertex_ids: block.cells[i].vertex_ids },
        ),
        markers: Seq::new(
            block.boundaries.len(),
            |b: int|
                MarkerModel {
                    tag: block.boundaries[b].tag,
                    edges: Seq::new(
                        block.boundaries[b].interfaces.len(),
                        |j: int| block.edges[block.boundaries[b].interfaces[j] as int],
                    ),
                },
        ),
    }
}

/// A built block, declared again as a mesh and built again, is the same
/// block: the same positions, the same interfaces under the same numbers,
/// the same cells and the same boundaries.
pub proof fn lemma_build_again(mesh: MeshModel)
    requires
        spec_build(mesh) is Ok,
        spec_build(mesh).unwrap().edges.len() <= usize::MAX,
    ensures
        spec_build(model_mesh(spec_build(mesh).unwrap())) == spec_build(mesh),
{
    let block = spec_build(mesh).unwrap();
    let again = model_mesh(block);
    let count = mesh.points.len() as int;
    let built = spec_cells(mesh.points, mesh.elements).unwrap();
    assert(block.edges == built.0);
    assert(block.cells == built.1);
    let bounds = spec_boundaries(count, block.edges, mesh.markers).unwrap();
    assert(block.boundaries == bounds);
    lemma_cells_built(mesh.points, mesh.elements);
    assert(again.elements =~= mesh.elements);
    lemma_boundaries_built(count, block.edges, mesh.markers);
    assert forall|b: int| 0 <= b < again.markers.len() implies spec_boundary_ids(
        count,
        block.edges,
        (#[trigger] again.markers[b]).edges,
    ) == Ok::<Seq<usize>, Su2Error>(block.boundaries[b].interfaces) by {
        assert(bounds[b].tag == mesh.markers[b].tag);
        lemma_boundary_ids_each(count, block.edges, mesh.markers[b].edges);
        assert forall|j: int| 0 <= j < bounds[b].interfaces.len() implies (
        #[trigger] bounds[b].interfaces[j]) < block.edges.len() by {
            assert(mesh.markers[b].edges[j].0 < count);
        }
        lemma_ids_of_own_edges(
            count,
            block.edges,
            block.boundaries[b].interfaces,
            block.boundaries[b].interfaces.len() as int,
        );
        let ids = block.boundaries[b].interfaces;
        assert(ids.take(ids.len() as int) =~= ids);
        assert(again.markers[b].edges =~= Seq::new(ids.len(), |j: int| block.edges[ids[j] as int]));
    }
    lemma_boundaries_again(count, block.edges, again.markers, block.boundaries, again.markers.len() as int);
    assert(again.markers.take(again.markers.len() as int) =~= again.markers);
    assert(block.boundaries.take(again.markers.len() as int) =~= block.boundaries);
}

/// The edges at the given places of a list without doubles are found at
/// those places.
pub proof fn lemma_ids_of_own_edges(
    point_count: int,
    edges: Seq<(usize, usize)>,
    ids: Seq<usize>,
    k: int,
)
    requires
        edges_distinct(edges),
        edges_in_range(edges, point_count),
        0 <= k <= ids.len(),
        forall|j: int| 0 <= j < ids.len() ==> #[trigger] ids[j] < edges.len(),
    ensures
        spec_boundary_ids(
            point_count,
            edges,
            Seq::new(k as nat, |j: int| edges[ids[j] as int]),
        ) == Ok::<Seq<usize>, Su2Error>(ids.take(k)),
    decreases k,
{
    let own = Seq::new(k as nat, |j: int| edges[ids[j] as int]);
    if k == 0 {
        assert(ids.take(0) =~= Seq::<usize>::empty());
    } else {
        lemma_ids_of_own_edges(point_count, edges, ids, k - 1);
        assert(own.drop_last() =~= Seq::new((k - 1) as nat, |j: int| edges[ids[j] as int]));
        let id = ids[k - 1];
        assert(own.last() == edges[id as int]);
        lemma_edge_found_at_its_place(edges, id as int);
        assert(ids.take(k - 1).push(id) =~= ids.take(k));
    }
}

/// Boundaries whose edges are found at the places of their interfaces are
/// built as they are.
pub proof fn lemma_boundaries_again(
    point_count: int,
    edges: Seq<(usize, usize)>,
    markers: Seq<MarkerModel>,
    boundaries: Seq<BoundaryModel>,
    k: int,
)
    requires
        0 <= k <= markers.len(),
        markers.len() == boundaries.len(),
        forall|b: int|
            0 <= b < markers.len() ==> (#[trigger] markers[b]).tag == boundaries[b].tag
                && spec_boundary_ids(point_count, edges, markers[b].edges) == Ok::<
                Seq<usize>,
                Su2Error,
            >(boundaries[b].interfaces),
    ensures
        spec_boundaries(point_count, edges, markers.take(k)) == Ok::<
            Seq<BoundaryModel>,
            Su2Error,
        >(boundaries.take(k)),
    decreases k,
{
    if k == 0 {
        assert(boundaries.take(0) =~= Seq::<BoundaryModel>::empty());
    } else {
        lemma_boundaries_again(point_count, edges, markers, boundaries, k - 1);
        assert(markers.take(k).drop_last() =~= markers.take(k - 1));
        assert(markers.take(k).last() == markers[k - 1]);
        assert(boundaries.take(k - 1).push(boundaries[k - 1]) =~= boundaries.take(k));
    }
}

/// Whether a block can be declared as a mesh and built from it: its
/// dimensions and positions are in range, its cells can be built on its
/// positions, and every interface on a boundary joins two vertices that
/// are the ends of a side of one of its cells.
pub open spec fn block_can_be_rebuilt(block: BlockModel) -> bool {
    let mesh = model_mesh(block);
    &&& (block.dimensions == 2 || block.dimensions == 3)
    &&& points_in_range(block.points)
    &&& spec_cells(block.points, mesh.elements) is Ok
    &&& spec_cells(block.points, mesh.elements).unwrap().0.len() <= usize::MAX
    &&& forall|b: int, j: int|
        0 <= b < block.boundaries.len() && 0 <= j < block.boundaries[b].interfaces.len() ==> {
            let id = #[trigger] block.boundaries[b].interfaces[j];
            &&& id < block.edges.len()
            &&& block.edges[id as int].0 < block.points.len()
            &&& block.edges[id as int].1 < block.points.len()
            &&& exists|i: int|
                0 <= i < mesh.elements.len() && element_has_side(
                    #[trigger] mesh.elements[i],
                    block.edges[id as int].0,
                    block.edges[id as int].1,
                )
        }
}

/// Any block that can be declared as a mesh and built from it comes back
/// with what it had, whatever the numbers of its interfaces were: the same
/// positions, cells of the same shapes on the same vertices, every interface
/// a side of a cell, and boundaries of the same names on interfaces between
/// the same vertices.
pub proof fn lemma_any_block_built_again(block: BlockModel)
    requires
        block_can_be_rebuilt(block),
    ensures
        spec_build(model_mesh(block)) is Ok,
        ({
            let again = spec_build(model_mesh(block)).unwrap();
            &&& again.dimensions == block.dimensions
            &&& again.points == block.points
            &&& again.cells.len() == block.cells.len()
            &&& forall|i: int|
                0 <= i < block.cells.len() ==> (#[trigger] again.cells[i]).shape
                    == block.cells[i].shape && again.cells[i].vertex_ids
                    == block.cells[i].vertex_ids
            &&& forall|k: int|
                0 <= k < again.edges.len() ==> #[trigger] interface_has_cell(again.cells, k)
            &&& again.boundaries.len() == block.boundaries.len()
            &&& forall|b: int|
                0 <= b < block.boundaries.len() ==> (#[trigger] again.boundaries[b]).tag
                    == block.boundaries[b].tag && again.boundaries[b].interfaces.len()
                    == block.boundaries[b].interfaces.len()
            &&& forall|b: int, j: int|
                0 <= b < block.boundaries.len() && 0 <= j < block.boundaries[b].interfaces.len()
                    ==> {
                    let id = #[trigger] again.boundaries[b].interfaces[j];
                    let old_edge = block.edges[block.boundaries[b].interfaces[j] as int];
                    id < again.edges.len() && same_edge(
                        again.edges[id as int],
                        old_edge.0,
                        old_edge.1,
                    )
                }
        }),
{
    let mesh = model_mesh(block);
    let count = block.points.len() as int;
    let built = spec_cells(block.points, mesh.elements).unwrap();
    lemma_cells_built(block.points, mesh.elements);
    lemma_sides_are_edges(block.points, mesh.elements);
    assert forall|b: int| 0 <= b < mesh.markers.len() implies {
        let ids = spec_boundary_ids(count, built.0, (#[trigger] mesh.markers[b]).edges);
        &&& ids is Ok
        &&& ids.unwrap().len() == mesh.markers[b].edges.len()
        &&& forall|j: int|
            0 <= j < mesh.markers[b].edges.len() ==> {
                let id = #[trigger] ids.unwrap()[j];
                id < built.0.len() && same_edge(
                    built.0[id as int],
                    mesh.markers[b].edges[j].0,
                    mesh.markers[b].edges[j].1,
                )
            }
    } by {
        let boundary = mesh.markers[b].edges;
        assert forall|j: int| 0 <= j < boundary.len() implies (#[trigger] boundary[j]).0 < count
            && boundary[j].1 < count && edge_listed(built.0, boundary[j].0, boundary[j].1) by {
            let id = block.boundaries[b].interfaces[j];
            assert(boundary[j] == block.edges[id as int]);
            let i = choose|i: int|
                0 <= i < mesh.elements.len() && element_has_side(
                    #[trigger] mesh.elements[i],
                    block.edges[id as int].0,
                    block.edges[id as int].1,
                );
            assert(edge_listed(built.0, boundary[j].0, boundary[j].1));
        }
        lemma_boundary_ids_found(count, built.0, boundary, boundary.len() as int);
        assert(boundary.take(boundary.len() as int) =~= boundary);
    }
    lemma_boundaries_found(count, built.0, mesh.markers, mesh.markers.len() as int);
    assert(mesh.markers.take(mesh.markers.len() as int) =~= mesh.markers);
    let again = spec_build(mesh).unwrap();
    assert(again.edges == built.0);
    assert(again.cells == built.1);
    let bounds = spec_boundaries(count, built.0, mesh.markers).unwrap();
    assert(again.boundaries == bounds);
    lemma_boundaries_built(count, built.0, mesh.markers);
    assert forall|b: int, j: int|
        0 <= b < block.boundaries.len() && 0 <= j < block.boundaries[b].interfaces.len() implies {
        let id = #[trigger] again.boundaries[b].interfaces[j];
        let old_edge = block.edges[block.boundaries[b].interfaces[j] as int];
        id < again.edges.len() && same_edge(again.edges[id as int], old_edge.0, old_edge.1)
    } by {
        assert(bounds[b].tag == mesh.markers[b].tag);
        let ids = spec_boundary_ids(count, built.0, mesh.markers[b].edges).unwrap();
        assert(bounds[b].interfaces == ids);
        let id = ids[j];
        assert(mesh.markers[b].edges[j] == block.edges[block.boundaries[b].interfaces[j] as int]);
    }
    assert forall|b: int| 0 <= b < block.boundaries.len() implies (
    #[trigger] again.boundaries[b]).tag == block.boundaries[b].tag
        && again.boundaries[b].interfaces.len() == block.boundaries[b].interfaces.len() by {
        assert(bounds[b].tag == mesh.markers[b].tag);
    }
}

/// Boundaries whose edges are all found are built.
pub proof fn lemma_boundaries_found(
    point_count: int,
    edges: Seq<(usize, usize)>,
    markers: Seq<MarkerModel>,
    k: int,
)
    requires
        0 <= k <= markers.len(),
        forall|b: int|
            0 <= b < markers.len() ==> spec_boundary_ids(
                point_count,
                edges,
                (#[trigger] markers[b]).edges,
            ) is Ok,
    ensures
        spec_boundaries(point_count, edges, markers.take(k)) is Ok,
    decreases k,
{
    if k > 0 {
        lemma_boundaries_found(point_count, edges, markers, k - 1);
        assert(markers.take(k).drop_last() =~= markers.take(k - 1));
        assert(markers.take(k).last() == markers[k - 1]);
    }
}

} // verus!
