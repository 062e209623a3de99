use crate::grid::geom_calc::compute_centre_of_vertices;
use crate::grid::geom_calc::magnitude;
use crate::grid::geom_calc::positions_of;
use crate::grid::geom_calc::quad_area_doubled;
use crate::grid::geom_calc::quad_signed_area_doubled;
use crate::grid::geom_calc::spec_quad_area_doubled;
use crate::grid::geom_calc::spec_triangle_area_doubled;
use crate::grid::geom_calc::triangle_area_doubled;
use crate::grid::geom_calc::triangle_signed_area_doubled;
use crate::grid::geom_calc::vector_sum;
use crate::grid::geom_calc::MeanPoint;
use crate::grid::interface::Direction;
use crate::grid::interface::GridInterface;
use crate::grid::vertex::GridVertex;
use crate::grid::Cell;
pub use crate::grid::CellShape;
use crate::grid::GridError;
use crate::grid::Id;
use crate::common::vector3::Vector3;
use vstd::prelude::*;

verus! {

impl CellShape {
    /// The number of vertices of the shape, in contracts.
    pub open spec fn spec_number_of_vertices(self) -> nat {
        match self {
            CellShape::Triangle => 3,
            CellShape::Quadrilateral => 4,
        }
    }

    /// The element type code of the shape in the mesh format, in contracts.
    pub open spec fn spec_su2_element_type(self) -> nat {
        match self {
            CellShape::Triangle => 5,
            CellShape::Quadrilateral => 9,
        }
    }

    /// The vertices of each side of the shape: each vertex with the next
    /// one, the last with the first.
    pub open spec fn spec_interfaces(self, vertices: Seq<usize>) -> Seq<Seq<usize>> {
        let n = self.spec_number_of_vertices() as int;
        Seq::new(n as nat, |i: int| seq![vertices[i], vertices[(i + 1) % n]])
    }

    /// Twice the signed area of the shape on the given positions.
    pub open spec fn spec_signed_volume_doubled(self, positions: Seq<Vector3>) -> int {
        match self {
            CellShape::Triangle => triangle_signed_area_doubled(
                positions[0],
                positions[1],
                positions[2],
            ),
            CellShape::Quadrilateral => quad_signed_area_doubled(
                positions[0],
                positions[1],
                positions[2],
                positions[3],
            ),
        }
    }

    /// Twice the volume of the shape on the given positions, per unit of
    /// depth: the triangle formula for a triangle, the shoelace formula for a
    /// quadrilateral.
    pub open spec fn spec_volume_doubled(self, positions: Seq<Vector3>) -> int {
        match self {
            CellShape::Triangle => spec_triangle_area_doubled(positions),
            CellShape::Quadrilateral => spec_quad_area_doubled(positions),
        }
    }

    /// The shape with the given number of vertices.
    pub fn from_number_of_vertices(n_vertices: u8) -> (shape: Result<CellShape, GridError>)
        ensures
            n_vertices < 3 <==> shape == Err::<CellShape, GridError>(GridError::NotEnoughVertices),
            n_vertices > 4 <==> shape == Err::<CellShape, GridError>(GridError::TooManyVertices),
            n_vertices == 3 <==> shape == Ok::<CellShape, GridError>(CellShape::Triangle),
            n_vertices == 4 <==> shape == Ok::<CellShape, GridError>(CellShape::Quadrilateral),
    {
        if n_vertices < 3 {
            Err(GridError::NotEnoughVertices)
        } else if n_vertices == 3 {
            Ok(CellShape::Triangle)
        } else if n_vertices == 4 {
            Ok(CellShape::Quadrilateral)
        } else {
            Err(GridError::TooManyVertices)
        }
    }

    /// The number of vertices of the shape.
    pub fn number_of_vertices(&self) -> (n: usize)
        ensures
            n == self.spec_number_of_vertices(),
    {
        match self {
            CellShape::Triangle => 3,
            CellShape::Quadrilateral => 4,
        }
    }

    /// The shape that an element type code of the mesh format names.
    pub fn from_su2_element_type(elem_type: usize) -> (shape: Result<CellShape, GridError>)
        ensures
            elem_type == 5 <==> shape == Ok::<CellShape, GridError>(CellShape::Triangle),
            elem_type == 9 <==> shape == Ok::<CellShape, GridError>(CellShape::Quadrilateral),
            elem_type != 5 && elem_type != 9 <==> shape == Err::<CellShape, GridError>(
                GridError::UnknownElementType,
            ),
    {
        if elem_type == 5 {
            Ok(CellShape::Triangle)
        } else if elem_type == 9 {
            Ok(CellShape::Quadrilateral)
        } else {
            Err(GridError::UnknownElementType)
        }
    }

    /// The element type code of the shape in the mesh format.
    pub fn to_su2_element_type(&self) -> (elem_type: usize)
        ensures
            elem_type == self.spec_su2_element_type(),
    {
        match self {
            CellShape::Triangle => 5,
            CellShape::Quadrilateral => 9,
        }
    }

    /// The numbers of the vertices of each interface of a cell of this shape
    /// on the given vertices.
    pub fn interfaces(&self, vertices: &[usize]) -> (sides: Vec<Vec<usize>>)
        requires
            vertices@.len() >= self.spec_number_of_vertices(),
        ensures
            sides@.len() == self.spec_number_of_vertices(),
            forall|i: int|
                0 <= i < sides@.len() ==> (#[trigger] sides@[i])@ == self.spec_interfaces(
                    vertices@,
                )[i],
    {
        let n = self.number_of_vertices();
        let mut sides: Vec<Vec<usize>> = Vec::with_capacity(n);
        let mut i: usize = 0;
        while i < n
            invariant
                i <= n,
                n == self.spec_number_of_vertices(),
                n <= vertices@.len(),
                sides@.len() == i,
                forall|j: int|
                    0 <= j < i ==> (#[trigger] sides@[j])@ == self.spec_interfaces(vertices@)[j],
            decreases n - i,
        {
            let next: usize = if i + 1 == n {
                0
            } else {
                i + 1
            };
            let mut side: Vec<usize> = Vec::with_capacity(2);
            side.push(vertices[i]);
            side.push(vertices[next]);
            proof {
                assert(side@ =~= seq![vertices@[i as int], vertices@[(i + 1) % (n as int)]]);
            }
            sides.push(side);
            i = i + 1;
        }
        sides
    }

    /// Twice the volume of the shape on the given vertices.
    pub fn volume_doubled(&self, vertices: &[&GridVertex]) -> (volume: i128)
        requires
            vertices@.len() == self.spec_number_of_vertices(),
        ensures
            volume == self.spec_volume_doubled(positions_of(vertices@)),
            volume >= 0,
    {
        match self {
            CellShape::Triangle => triangle_area_doubled(vertices),
            CellShape::Quadrilateral => quad_area_doubled(vertices),
        }
    }
}

/// The volume of a cell is never negative, and it is positive exactly where
/// the signed area of its vertices is not zero: for a triangle, where the
/// vertices do not lie on one line.
pub proof fn lemma_volume_positive(shape: CellShape, positions: Seq<Vector3>)
    ensures
        shape.spec_volume_doubled(positions) >= 0,
        shape.spec_volume_doubled(positions) > 0 <==> shape.spec_signed_volume_doubled(positions)
            != 0,
        shape.spec_volume_doubled(positions) == magnitude(
            shape.spec_signed_volume_doubled(positions),
        ),
{
}

/// An interface as a cell sees it: the number of the interface, and whether
/// its normal points towards the centre of the cell.
#[derive(Debug, PartialEq, Eq, Clone, Copy, Structural)]
pub struct CellFace {
    interface: usize,
    direction: Direction,
}

impl CellFace {
    /// The number of the interface, in contracts.
    pub closed spec fn spec_interface(&self) -> usize {
        self.interface
    }

    /// The direction of the interface, in contracts.
    pub closed spec fn spec_direction(&self) -> Direction {
        self.direction
    }

    /// The face that sees the interface `interface` in the given direction.
    pub fn new(interface: usize, direction: Direction) -> (face: CellFace)
        ensures
            face.spec_interface() == interface,
            face.spec_direction() == direction,
    {
        CellFace { interface, direction }
    }

    /// The number of the interface.
    pub fn interface(&self) -> (interface: usize)
        ensures
            interface == self.spec_interface(),
    {
        self.interface
    }

    /// The direction of the interface.
    pub fn direction(&self) -> (direction: &Direction)
        ensures
            *direction == self.spec_direction(),
    {
        &self.direction
    }
}

/// The numbers of a list of vertices.
pub open spec fn vertex_ids_of(vertices: Seq<&GridVertex>) -> Seq<usize> {
    Seq::new(vertices.len(), |i: int| vertices[i].spec_id())
}

/// The mean of the positions of a list of vertices, as the sum and the number
/// of the positions.
pub open spec fn is_centre_of(centre: MeanPoint, vertices: Seq<&GridVertex>) -> bool {
    &&& centre.spec_sum() == vector_sum(positions_of(vertices))
    &&& centre.spec_count() == vertices.len()
}

/// A cell of a grid: a triangle or a quadrilateral, with what follows from
/// the positions of its vertices.
#[derive(Debug, PartialEq, Eq)]
pub struct GridCell {
    vertex_ids: Vec<usize>,
    interfaces: Vec<CellFace>,
    shape: CellShape,
    volume_doubled: i128,
    centre: MeanPoint,
    id: usize,
}

impl GridCell {
    /// The faces of the cell, in contracts.
    pub closed spec fn spec_cell_faces(&self) -> Seq<CellFace> {
        self.interfaces@
    }

    /// Twice the volume of the cell, in contracts.
    pub closed spec fn spec_volume_doubled(&self) -> int {
        self.volume_doubled as int
    }

    /// The mean of the vertices of the cell, in contracts.
    pub closed spec fn spec_centre(&self) -> MeanPoint {
        self.centre
    }

    /// A cell has as many vertices as its shape, and a volume that is not
    /// negative.
    #[verifier::type_invariant]
    pub open spec fn well_formed(&self) -> bool {
        &&& self.spec_vertex_ids().len() == self.spec_shape().spec_number_of_vertices()
        &&& self.spec_centre().spec_count() == self.spec_vertex_ids().len()
        &&& self.spec_centre().well_formed()
        &&& self.spec_volume_doubled() >= 0
    }

    /// Whether the cell is the one that `new` builds from the given
    /// interfaces and vertices under the number `id`.
    pub open spec fn is_cell_of(
        &self,
        interfaces: Seq<&GridInterface>,
        vertices: Seq<&GridVertex>,
        id: usize,
    ) -> bool {
        &&& self.spec_id() == id
        &&& self.spec_vertex_ids() == vertex_ids_of(vertices)
        &&& self.spec_shape().spec_number_of_vertices() == vertices.len()
        &&& is_centre_of(self.spec_centre(), vertices)
        &&& self.spec_volume_doubled() == self.spec_shape().spec_volume_doubled(
            positions_of(vertices),
        )
        &&& self.spec_cell_faces().len() == interfaces.len()
        &&& forall|i: int|
            0 <= i < interfaces.len() ==> {
                let face = #[trigger] self.spec_cell_faces()[i];
                &&& face.spec_interface() == interfaces[i].spec_id()
                &&& Ok::<Direction, GridError>(face.spec_direction())
                    == interfaces[i].spec_direction_from(
                    vector_sum(positions_of(vertices)),
                    vertices.len() as int,
                )
            }
    }

    /// Whether the mean of the given vertices lies on the line of one of the
    /// interfaces, within the tolerance.
    pub open spec fn some_interface_degenerate(
        interfaces: Seq<&GridInterface>,
        vertices: Seq<&GridVertex>,
    ) -> bool {
        exists|i: int|
            0 <= i < interfaces.len() && (#[trigger] interfaces[i]).spec_direction_from(
                vector_sum(positions_of(vertices)),
                vertices.len() as int,
            ) is Err
    }

    /// Creates a cell from the interfaces around it and its vertices.
    ///
    /// The shape follows from the number of vertices: three make a triangle,
    /// four a quadrilateral. The centre is the mean of the vertices. Each
    /// interface is given its direction as seen from the centre, and the
    /// volume is computed by the formula of the shape. A centre that lies on
    /// the line of an interface is refused.
    pub fn new(interfaces: &[&GridInterface], vertices: &[&GridVertex], id: usize) -> (cell:
        Result<GridCell, GridError>)
        ensures
            vertices@.len() < 3 <==> cell == Err::<GridCell, GridError>(
                GridError::NotEnoughVertices,
            ),
            vertices@.len() > 4 <==> cell == Err::<GridCell, GridError>(GridError::TooManyVertices),
            cell == Err::<GridCell, GridError>(GridError::DegenerateOrientation) <==> 3
                <= vertices@.len() <= 4 && GridCell::some_interface_degenerate(
                interfaces@,
                vertices@,
            ),
            cell matches Err(e) ==> e == GridError::NotEnoughVertices || e
                == GridError::TooManyVertices || e == GridError::DegenerateOrientation,
            cell matches Ok(built) ==> built.is_cell_of(interfaces@, vertices@, id),
    {
        let n = vertices.len();
        if n < 3 {
            return Err(GridError::NotEnoughVertices);
        }
        if n > 4 {
            return Err(GridError::TooManyVertices);
        }
        let shape = if n == 3 {
            CellShape::Triangle
        } else {
            CellShape::Quadrilateral
        };
        let mut vertex_ids: Vec<usize> = Vec::with_capacity(n);
        let mut i: usize = 0;
        while i < n
            invariant
                i <= n,
                n == vertices@.len(),
                vertex_ids@.len() == i,
                forall|j: int| 0 <= j < i ==> vertex_ids@[j] == (#[trigger] vertices@[j]).spec_id(),
            decreases n - i,
        {
            vertex_ids.push(vertices[i].id());
            i = i + 1;
        }
        let centre = compute_centre_of_vertices(vertices);
        proof {
            use_type_invariant(&centre);
        }
        let m = interfaces.len();
        let mut cell_faces: Vec<CellFace> = Vec::with_capacity(m);
        let mut k: usize = 0;
        while k < m
            invariant
                k <= m,
                m == interfaces@.len(),
                3 <= vertices@.len() <= 4,
                is_centre_of(centre, vertices@),
                cell_faces@.len() == k,
                forall|j: int|
                    0 <= j < k ==> {
                        let face = #[trigger] cell_faces@[j];
                        &&& face.spec_interface() == interfaces@[j].spec_id()
                        &&& Ok::<Direction, GridError>(face.spec_direction())
                            == interfaces@[j].spec_direction_from(
                            centre.spec_sum(),
                            centre.spec_count() as int,
                        )
                    },
                forall|j: int|
                    0 <= j < k ==> (#[trigger] interfaces@[j]).spec_direction_from(
                        centre.spec_sum(),
                        centre.spec_count() as int,
                    ) is Ok,
            decreases m - k,
        {
            let interface = interfaces[k];
            match interface.compute_direction(&centre) {
                Err(_) => {
                    proof {
                        assert(interfaces@[k as int].spec_direction_from(
                            centre.spec_sum(),
                            centre.spec_count() as int,
                        ) is Err);
                        assert(GridCell::some_interface_degenerate(interfaces@, vertices@));
                    }
                    return Err(GridError::DegenerateOrientation);
                },
                Ok(direction) => {
                    cell_faces.push(CellFace { interface: interface.id(), direction });
                },
            }
            k = k + 1;
        }
        let volume_doubled = shape.volume_doubled(vertices);
        proof {
            assert(vertex_ids@ =~= vertex_ids_of(vertices@));
        }
        Ok(GridCell { vertex_ids, interfaces: cell_faces, shape, volume_doubled, centre, id })
    }

    /// The faces of the cell: its interfaces and their directions.
    pub fn cell_faces(&self) -> (faces: &Vec<CellFace>)
        ensures
            faces@ == self.spec_cell_faces(),
    {
        &self.interfaces
    }

    /// Twice the volume of the cell, per unit of depth.
    pub fn volume_doubled(&self) -> (volume: i128)
        ensures
            volume == self.spec_volume_doubled(),
            volume >= 0,
    {
        proof {
            use_type_invariant(self);
        }
        self.volume_doubled
    }

    /// The mean of the vertices of the cell.
    pub fn centre(&self) -> (centre: &MeanPoint)
        ensures
            *centre == self.spec_centre(),
            self.well_formed(),
    {
        proof {
            use_type_invariant(self);
        }
        &self.centre
    }
}

impl Id for GridCell {
    closed spec fn spec_id(&self) -> usize {
        self.id
    }

    fn id(&self) -> usize {
        self.id
    }
}

impl Cell for GridCell {
    closed spec fn spec_shape(&self) -> CellShape {
        self.shape
    }

    closed spec fn spec_vertex_ids(&self) -> Seq<usize> {
        self.vertex_ids@
    }

    open spec fn spec_interface_ids(&self) -> Seq<usize> {
        Seq::new(
            self.spec_cell_faces().len(),
            |i: int| self.spec_cell_faces()[i].spec_interface(),
        )
    }

    fn shape(&self) -> &CellShape {
        &self.shape
    }

    fn vertex_ids(&self) -> &Vec<usize> {
        &self.vertex_ids
    }

    fn interface_ids(&self) -> (ids: Vec<usize>) {
        let n = self.interfaces.len();
        let mut ids: Vec<usize> = Vec::with_capacity(n);
        let mut i: usize = 0;
        while i < n
            invariant
                i <= n,
                n == self.interfaces@.len(),
                ids@.len() == i,
                forall|j: int| 0 <= j < i ==> ids@[j] == (#[trigger] self.interfaces@[j]).spec_interface(),
            decreases n - i,
        {
            ids.push(self.interfaces[i].interface());
            i = i + 1;
        }
        proof {
            assert(ids@ =~= self.spec_interface_ids());
        }
        ids
    }
}

} // verus!
