use crate::common::number::append_bytes;
use crate::common::number::format_usize;
use crate::common::number::nat_digits;
use crate::common::number::parse_usize;
use crate::common::number::spec_parse_usize;
use crate::common::number::COORD_MAX;
use crate::common::vector3::lemma_product_bound;
use crate::common::vector3::Vector3;
use crate::grid::geom_calc::compute_centre_of_vertices;
use crate::grid::geom_calc::positions_of;
use crate::grid::geom_calc::vector_sum;
use crate::grid::geom_calc::MeanPoint;
use crate::grid::vertex::GridVertex;
use crate::grid::GridError;
use crate::grid::Id;
use crate::grid::Interface;
pub use crate::grid::InterfaceShape;
use crate::grid::Vertex;
use std::collections::HashMap;
use vstd::prelude::*;
use vstd::std_specs::cmp::PartialEqSpecImpl;

verus! {

/// How many tolerances make one step: the tolerance within which a point
/// counts as lying on an interface is `1e-14` units of length, a step is
/// `1e-9`.
pub const TOLERANCES_PER_STEP: i128 = 100_000;

impl InterfaceShape {
    /// The element type code of the shape in the mesh format, in contracts.
    pub open spec fn spec_su2_element_type(self) -> nat {
        3
    }

    /// The shape with the given number of vertices.
    pub fn from_number_of_vertices(n_vertices: u8) -> (shape: Result<InterfaceShape, GridError>)
        ensures
            n_vertices < 2 <==> shape == Err::<InterfaceShape, GridError>(
                GridError::NotEnoughVertices,
            ),
            n_vertices > 2 <==> shape == Err::<InterfaceShape, GridError>(
                GridError::TooManyVertices,
            ),
            n_vertices == 2 <==> shape == Ok::<InterfaceShape, GridError>(InterfaceShape::Line),
    {
        if n_vertices < 2 {
            Err(GridError::NotEnoughVertices)
        } else if n_vertices == 2 {
            Ok(InterfaceShape::Line)
        } else {
            Err(GridError::TooManyVertices)
        }
    }

    /// The shape that an element type code of the mesh format names.
    pub fn from_su2_element_type(elem_type: usize) -> (shape: Result<InterfaceShape, GridError>)
        ensures
            elem_type == 3 <==> shape == Ok::<InterfaceShape, GridError>(InterfaceShape::Line),
            elem_type != 3 <==> shape == Err::<InterfaceShape, GridError>(
                GridError::UnknownElementType,
            ),
    {
        if elem_type == 3 {
            Ok(InterfaceShape::Line)
        } else {
            Err(GridError::UnknownElementType)
        }
    }

    /// The element type code of the shape in the mesh format.
    pub fn to_su2_element_type(&self) -> (elem_type: usize)
        ensures
            elem_type == self.spec_su2_element_type(),
    {
        match self {
            InterfaceShape::Line => 3,
        }
    }
}

/// Whether the normal of an interface points towards a point or away from it.
#[derive(Debug, PartialEq, Eq, Clone, Copy, Structural)]
pub enum Direction {
    /// The normal points towards the point.
    Inwards,
    /// The normal points away from the point.
    Outwards,
}

/// The vector that is normal to `tangent` in the x-y plane: `tangent` crossed
/// with the unit vector along z.
pub open spec fn normal_of(tangent: Vector3) -> Vector3 {
    Vector3 { x: tangent.y, y: (-tangent.x) as i64, z: 0 }
}

/// The dot product of the normal with the vector from the centre of an
/// interface to a point, multiplied by the numbers of points behind the two
/// means. The centre is `centre_sum / centre_count`, the point is
/// `point_sum / point_count`.
pub open spec fn offset_dot(
    centre_sum: Vector3,
    centre_count: int,
    normal: Vector3,
    point_sum: Vector3,
    point_count: int,
) -> int {
    (point_sum.x * centre_count - centre_sum.x * point_count) * normal.x + (point_sum.y
        * centre_count - centre_sum.y * point_count) * normal.y + (point_sum.z * centre_count
        - centre_sum.z * point_count) * normal.z
}

/// Whether a point lies nearer to the line of an interface than the
/// tolerance: the distance is `offset_dot` over the length of the normal and
/// the two counts.
pub open spec fn within_tolerance(
    centre_sum: Vector3,
    centre_count: int,
    normal: Vector3,
    point_sum: Vector3,
    point_count: int,
) -> bool {
    let d = offset_dot(centre_sum, centre_count, normal, point_sum, point_count);
    let scale = centre_count * point_count;
    (d * TOLERANCES_PER_STEP) * (d * TOLERANCES_PER_STEP) < (scale * scale)
        * normal.spec_length_squared()
}

/// The direction of an interface seen from a point: none within the
/// tolerance of its line, inwards where the normal points to the side of the
/// point, outwards on the other side.
pub open spec fn spec_direction(
    centre_sum: Vector3,
    centre_count: int,
    normal: Vector3,
    point_sum: Vector3,
    point_count: int,
) -> Result<Direction, GridError> {
    if within_tolerance(centre_sum, centre_count, normal, point_sum, point_count) {
        Err(GridError::DegenerateOrientation)
    } else if offset_dot(centre_sum, centre_count, normal, point_sum, point_count) > 0 {
        Ok(Direction::Inwards)
    } else {
        Ok(Direction::Outwards)
    }
}

/// An interface of a grid: a line between two vertices, with what follows
/// from their positions.
#[derive(Debug)]
pub struct GridInterface {
    vertex_ids: Vec<usize>,
    area_squared: i128,
    normal: Vector3,
    tangent: Vector3,
    centre: MeanPoint,
    shape: InterfaceShape,
    id: usize,
}

impl GridInterface {
    /// The vector from the first vertex to the second, in contracts.
    pub closed spec fn spec_tangent(&self) -> Vector3 {
        self.tangent
    }

    /// The vector normal to the interface, in contracts.
    pub closed spec fn spec_normal(&self) -> Vector3 {
        self.normal
    }

    /// The square of the length of the interface, in contracts.
    pub closed spec fn spec_area_squared(&self) -> int {
        self.area_squared as int
    }

    /// The mean of the two vertices, in contracts.
    pub closed spec fn spec_centre(&self) -> MeanPoint {
        self.centre
    }

    /// The direction of the interface as seen from the mean of `point_count`
    /// points with the sum `point_sum`.
    pub open spec fn spec_direction_from(&self, point_sum: Vector3, point_count: int) -> Result<
        Direction,
        GridError,
    > {
        spec_direction(
            self.spec_centre().spec_sum(),
            self.spec_centre().spec_count() as int,
            self.spec_normal(),
            point_sum,
            point_count,
        )
    }

    /// An interface has two vertices, and its normal, area and centre belong
    /// to one tangent.
    #[verifier::type_invariant]
    pub open spec fn well_formed(&self) -> bool {
        &&& self.spec_vertex_ids().len() == 2
        &&& self.spec_tangent().bounded(2 * COORD_MAX)
        &&& self.spec_normal() == normal_of(self.spec_tangent())
        &&& self.spec_area_squared() == self.spec_tangent().spec_length_squared()
        &&& self.spec_centre().spec_count() == 2
        &&& self.spec_centre().well_formed()
    }

    /// Whether the interface is the one that `new_from_vertices` builds from
    /// the vertices `first` and `second` under the number `id`.
    pub open spec fn is_edge(&self, first: GridVertex, second: GridVertex, id: usize) -> bool {
        &&& self.spec_vertex_ids() == seq![first.spec_id(), second.spec_id()]
        &&& self.spec_id() == id
        &&& self.spec_shape() == InterfaceShape::Line
        &&& self.spec_tangent() == second.spec_pos().spec_minus(first.spec_pos())
        &&& self.spec_normal() == normal_of(self.spec_tangent())
        &&& self.spec_area_squared() == self.spec_tangent().spec_length_squared()
        &&& self.spec_centre().spec_sum() == first.spec_pos().spec_plus(second.spec_pos())
        &&& self.spec_centre().spec_count() == 2
    }

    /// Creates the interface between two vertices.
    ///
    /// The first tangent runs from the first vertex to the second, the second
    /// tangent along z, and the normal is the first crossed with the second.
    /// The area is the distance between the vertices, per unit of depth, and
    /// the centre is their mean. Tangent and normal are not brought to unit
    /// length, and the area is kept as its square.
    pub fn new_from_vertices(vertices: &[&GridVertex], id: usize) -> (interface: Result<
        GridInterface,
        GridError,
    >)
        ensures
            vertices@.len() < 2 <==> interface == Err::<GridInterface, GridError>(
                GridError::NotEnoughVertices,
            ),
            vertices@.len() > 2 <==> interface == Err::<GridInterface, GridError>(
                GridError::TooManyVertices,
            ),
            vertices@.len() == 2 <==> interface is Ok,
            interface matches Ok(built) ==> built.is_edge(*vertices@[0], *vertices@[1], id),
    {
        let n = vertices.len();
        if n < 2 {
            return Err(GridError::NotEnoughVertices);
        }
        if n > 2 {
            return Err(GridError::TooManyVertices);
        }
        let first = vertices[0];
        let second = vertices[1];
        let mut vertex_ids: Vec<usize> = Vec::with_capacity(2);
        vertex_ids.push(first.id());
        vertex_ids.push(second.id());
        let tangent = first.vector_to(second);
        let normal = Vector3 { x: tangent.y, y: -tangent.x, z: 0 };
        let area_squared = tangent.length_squared();
        let centre = compute_centre_of_vertices(vertices);
        proof {
            let positions = positions_of(vertices@);
            reveal_with_fuel(vector_sum, 3);
            assert(positions.drop_last().drop_last() =~= Seq::<Vector3>::empty());
            assert(positions.drop_last().last() == first.spec_pos());
            assert(positions.last() == second.spec_pos());
            use_type_invariant(first);
            use_type_invariant(second);
            use_type_invariant(&centre);
            assert(vertex_ids@ =~= seq![first.spec_id(), second.spec_id()]);
        }
        Ok(
            GridInterface {
                vertex_ids,
                area_squared,
                normal,
                tangent,
                centre,
                shape: InterfaceShape::Line,
                id,
            },
        )
    }

    /// The square of the area of the interface: of its length, per unit of
    /// depth.
    pub fn area_squared(&self) -> (area_squared: i128)
        ensures
            area_squared == self.spec_area_squared(),
            self.well_formed(),
    {
        proof {
            use_type_invariant(self);
        }
        self.area_squared
    }

    /// A vector normal to the interface, as long as the interface.
    pub fn normal(&self) -> (normal: Vector3)
        ensures
            normal == self.spec_normal(),
            self.well_formed(),
    {
        proof {
            use_type_invariant(self);
        }
        self.normal
    }

    /// The vector from the first vertex of the interface to the second.
    pub fn tangent1(&self) -> (tangent: Vector3)
        ensures
            tangent == self.spec_tangent(),
            self.well_formed(),
    {
        proof {
            use_type_invariant(self);
        }
        self.tangent
    }

    /// The second tangent: the direction out of the plane, one step long.
    pub fn tangent2(&self) -> (tangent: Vector3)
        ensures
            tangent == (Vector3 { x: 0, y: 0, z: 1 }),
    {
        Vector3 { x: 0, y: 0, z: 1 }
    }

    /// The mean of the two vertices.
    pub fn centre(&self) -> (centre: &MeanPoint)
        ensures
            *centre == self.spec_centre(),
            self.well_formed(),
    {
        proof {
            use_type_invariant(self);
        }
        &self.centre
    }

    /// The number of dimensions of the grid that the interface belongs to.
    pub fn dimensions(&self) -> (dimensions: u8)
        ensures
            dimensions == 2,
    {
        match self.shape {
            InterfaceShape::Line => 2,
        }
    }

    /// Tells whether the normal of the interface points towards `point` or
    /// away from it.
    ///
    /// With `d` the vector from the centre of the interface to the point and
    /// `n` the normal at unit length: where the magnitude of `d . n` is under
    /// the tolerance, there is no direction; where `d . n` is positive, the
    /// direction is inwards; else outwards.
    pub fn compute_direction(&self, point: &MeanPoint) -> (direction: Result<
        Direction,
        GridError,
    >)
        ensures
            direction == self.spec_direction_from(point.spec_sum(), point.spec_count() as int),
    {
        proof {
            use_type_invariant(self);
            use_type_invariant(point);
            use_type_invariant(&self.centre);
        }
        let pc: i64 = point.count() as i64;
        let p = point.sum();
        let c = self.centre.sum();
        let n = self.normal;
        proof {
            assert(-4 * (2 * COORD_MAX) <= c.x * pc <= 4 * (2 * COORD_MAX)) by (nonlinear_arith)
                requires
                    -2 * COORD_MAX <= c.x <= 2 * COORD_MAX,
                    1 <= pc <= 4,
            ;
            assert(-4 * (2 * COORD_MAX) <= c.y * pc <= 4 * (2 * COORD_MAX)) by (nonlinear_arith)
                requires
                    -2 * COORD_MAX <= c.y <= 2 * COORD_MAX,
                    1 <= pc <= 4,
            ;
            assert(-4 * (2 * COORD_MAX) <= c.z * pc <= 4 * (2 * COORD_MAX)) by (nonlinear_arith)
                requires
                    -2 * COORD_MAX <= c.z <= 2 * COORD_MAX,
                    1 <= pc <= 4,
            ;
            assert(-4 * COORD_MAX <= p.x <= 4 * COORD_MAX) by (nonlinear_arith)
                requires
                    -(pc * COORD_MAX) <= p.x <= pc * COORD_MAX,
                    1 <= pc <= 4,
            ;
            assert(-4 * COORD_MAX <= p.y <= 4 * COORD_MAX) by (nonlinear_arith)
                requires
                    -(pc * COORD_MAX) <= p.y <= pc * COORD_MAX,
                    1 <= pc <= 4,
            ;
            assert(-4 * COORD_MAX <= p.z <= 4 * COORD_MAX) by (nonlinear_arith)
                requires
                    -(pc * COORD_MAX) <= p.z <= pc * COORD_MAX,
                    1 <= pc <= 4,
            ;
        }
        let dx: i64 = p.x * 2 - c.x * pc;
        let dy: i64 = p.y * 2 - c.y * pc;
        let dz: i64 = p.z * 2 - c.z * pc;
        proof {
            lemma_product_bound(dx as int, n.x as int, 8_000_000_000_000_000_000);
            lemma_product_bound(dy as int, n.y as int, 8_000_000_000_000_000_000);
            lemma_product_bound(n.x as int, n.x as int, 2 * COORD_MAX);
            lemma_product_bound(n.y as int, n.y as int, 2 * COORD_MAX);
            assert(n.x * n.x >= 0) by (nonlinear_arith);
            assert(n.y * n.y >= 0) by (nonlinear_arith);
            assert(dz * n.z == 0) by (nonlinear_arith)
                requires
                    n.z == 0,
            ;
            assert(n.z * n.z == 0) by (nonlinear_arith)
                requires
                    n.z == 0,
            ;
        }
        let dot: i128 = (dx as i128) * (n.x as i128) + (dy as i128) * (n.y as i128);
        let a: u128 = if dot < 0 {
            (-dot) as u128
        } else {
            dot as u128
        };
        let scale: u128 = 2 * (pc as u128);
        let normal_squared: u128 = ((n.x as i128) * (n.x as i128) + (n.y as i128) * (n.y
            as i128)) as u128;
        let ghost d = offset_dot(
            self.spec_centre().spec_sum(),
            2,
            self.spec_normal(),
            point.spec_sum(),
            point.spec_count() as int,
        );
        let ghost rhs = (scale * scale) * normal_squared;
        proof {
            assert(d == dot);
            assert(normal_squared == n.spec_length_squared());
            assert(scale * scale <= 64) by (nonlinear_arith)
                requires
                    0 <= scale <= 8,
            ;
            assert(rhs <= 64 * 2_000_000_000_000_000_000_000_000_000_000_000_000)
                by (nonlinear_arith)
                requires
                    rhs == (scale * scale) * normal_squared,
                    0 <= scale * scale <= 64,
                    0 <= normal_squared <= 2_000_000_000_000_000_000_000_000_000_000_000_000,
            ;
            assert((d * TOLERANCES_PER_STEP) * (d * TOLERANCES_PER_STEP) == (a * 100_000) * (a
                * 100_000)) by (nonlinear_arith)
                requires
                    a == d || a == -d,
            ;
        }
        let within = if a >= 150_000_000_000_000 {
            proof {
                assert((a * 100_000) * (a * 100_000) >= 15_000_000_000_000_000_000
                    * 15_000_000_000_000_000_000) by (nonlinear_arith)
                    requires
                        a * 100_000 >= 15_000_000_000_000_000_000,
                ;
            }
            false
        } else {
            let lhs_root: u128 = a * 100_000;
            proof {
                lemma_product_bound(lhs_root as int, lhs_root as int, 15_000_000_000_000_000_000);
            }
            lhs_root * lhs_root < (scale * scale) * normal_squared
        };
        if within {
            Err(GridError::DegenerateOrientation)
        } else if dot > 0 {
            Ok(Direction::Inwards)
        } else {
            Ok(Direction::Outwards)
        }
    }

    /// Whether every one of the given vertices is a vertex of the interface.
    pub fn equal_to_vertices(&self, other: &[&GridVertex]) -> (equal: bool)
        ensures
            equal <==> forall|i: int|
                0 <= i < other@.len() ==> self.spec_vertex_ids().contains(
                    (#[trigger] other@[i]).spec_id(),
                ),
    {
        let n = other.len();
        let mut i: usize = 0;
        while i < n
            invariant
                i <= n,
                n == other@.len(),
                forall|j: int|
                    0 <= j < i ==> self.spec_vertex_ids().contains((#[trigger] other@[j]).spec_id()),
            decreases n - i,
        {
            if !self.has_vertex(other[i].id()) {
                return false;
            }
            i = i + 1;
        }
        true
    }

    /// Whether every one of the given numbers is that of a vertex of the
    /// interface.
    pub fn equal_to_vertex_ids(&self, other: &[usize]) -> (equal: bool)
        ensures
            equal <==> forall|i: int|
                0 <= i < other@.len() ==> self.spec_vertex_ids().contains(#[trigger] other@[i]),
    {
        let n = other.len();
        let mut i: usize = 0;
        while i < n
            invariant
                i <= n,
                n == other@.len(),
                forall|j: int| 0 <= j < i ==> self.spec_vertex_ids().contains(#[trigger] other@[j]),
            decreases n - i,
        {
            if !self.has_vertex(other[i]) {
                return false;
            }
            i = i + 1;
        }
        true
    }

    /// Whether the vertex with the given number is a vertex of the interface.
    pub fn has_vertex(&self, vertex_id: usize) -> (found: bool)
        ensures
            found <==> self.spec_vertex_ids().contains(vertex_id),
    {
        let n = self.vertex_ids.len();
        let mut i: usize = 0;
        while i < n
            invariant
                i <= n,
                n == self.vertex_ids@.len(),
                forall|j: int| 0 <= j < i ==> self.vertex_ids@[j] != vertex_id,
            decreases n - i,
        {
            if self.vertex_ids[i] == vertex_id {
                return true;
            }
            i = i + 1;
        }
        false
    }
}

impl Clone for GridInterface {
    fn clone(&self) -> (copy: GridInterface)
        ensures
            copy.spec_vertex_ids() == self.spec_vertex_ids(),
            copy.spec_id() == self.spec_id(),
            copy.spec_shape() == self.spec_shape(),
            copy.spec_tangent() == self.spec_tangent(),
            copy.spec_normal() == self.spec_normal(),
            copy.spec_area_squared() == self.spec_area_squared(),
            copy.spec_centre() == self.spec_centre(),
    {
        proof {
            use_type_invariant(self);
        }
        let vertex_ids = self.vertex_ids.clone();
        proof {
            assert(vertex_ids@ =~= self.vertex_ids@);
        }
        GridInterface {
            vertex_ids,
            area_squared: self.area_squared,
            normal: self.normal,
            tangent: self.tangent,
            centre: self.centre,
            shape: self.shape,
            id: self.id,
        }
    }
}

impl Id for GridInterface {
    closed spec fn spec_id(&self) -> usize {
        self.id
    }

    fn id(&self) -> usize {
        self.id
    }
}

impl Interface for GridInterface {
    closed spec fn spec_shape(&self) -> InterfaceShape {
        self.shape
    }

    closed spec fn spec_vertex_ids(&self) -> Seq<usize> {
        self.vertex_ids@
    }

    fn shape(&self) -> &InterfaceShape {
        &self.shape
    }

    fn vertex_ids(&self) -> &Vec<usize> {
        &self.vertex_ids
    }
}

impl PartialEq for GridInterface {
    /// Two interfaces are the same where their numbers are.
    fn eq(&self, other: &GridInterface) -> (equal: bool) {
        self.id == other.id
    }
}

impl PartialEqSpecImpl for GridInterface {
    open spec fn obeys_eq_spec() -> bool {
        true
    }

    open spec fn eq_spec(&self, other: &GridInterface) -> bool {
        self.spec_id() == other.spec_id()
    }
}

impl Eq for GridInterface {

}

impl<'a> PartialEq<Vec<&'a GridVertex>> for GridInterface {
    /// An interface is that of a list of vertices where every vertex of the
    /// list is one of its own.
    fn eq(&self, vertices: &Vec<&'a GridVertex>) -> (equal: bool) {
        self.equal_to_vertices(vertices.as_slice())
    }
}

impl<'a> PartialEqSpecImpl<Vec<&'a GridVertex>> for GridInterface {
    open spec fn obeys_eq_spec() -> bool {
        true
    }

    open spec fn eq_spec(&self, vertices: &Vec<&'a GridVertex>) -> bool {
        forall|i: int|
            0 <= i < vertices@.len() ==> self.spec_vertex_ids().contains(
                (#[trigger] vertices@[i]).spec_id(),
            )
    }
}

/// Whether an edge joins the vertices `a` and `b`, in either order.
pub open spec fn same_edge(edge: (usize, usize), a: usize, b: usize) -> bool {
    (edge.0 == a && edge.1 == b) || (edge.0 == b && edge.1 == a)
}

/// The place of the first edge in a list that joins `a` and `b`.
pub open spec fn edge_position(edges: Seq<(usize, usize)>, a: usize, b: usize) -> Option<int>
    decreases edges.len(),
{
    if edges.len() == 0 {
        None
    } else {
        match edge_position(edges.drop_last(), a, b) {
            Some(i) => Some(i),
            None => if same_edge(edges.last(), a, b) {
                Some(edges.len() - 1)
            } else {
                None
            },
        }
    }
}

/// The list of edges after the edge from `a` to `b` was asked for, and the
/// place of that edge: where it was in the list, that place, and else a new
/// place at the end.
pub open spec fn spec_add_or_retrieve(edges: Seq<(usize, usize)>, a: usize, b: usize) -> (
    Seq<(usize, usize)>,
    int,
) {
    match edge_position(edges, a, b) {
        Some(i) => (edges, i),
        None => (edges.push((a, b)), edges.len() as int),
    }
}

/// The pairs of vertices that a list of interfaces joins.
pub open spec fn edges_of(interfaces: Seq<GridInterface>) -> Seq<(usize, usize)> {
    Seq::new(
        interfaces.len(),
        |i: int| (interfaces[i].spec_vertex_ids()[0], interfaces[i].spec_vertex_ids()[1]),
    )
}

/// The key under which the edge between `a` and `b` is kept: the larger
/// number in the upper half, the smaller in the lower.
pub open spec fn pair_key(a: usize, b: usize) -> u128 {
    if a >= b {
        (a * 0x1_0000_0000_0000_0000 + b) as u128
    } else {
        (b * 0x1_0000_0000_0000_0000 + a) as u128
    }
}

/// What [`edge_position`] finds is the first edge that joins the two
/// vertices, and it finds one wherever there is one.
pub proof fn lemma_edge_position(edges: Seq<(usize, usize)>, a: usize, b: usize)
    ensures
        match edge_position(edges, a, b) {
            Some(i) => {
                &&& 0 <= i < edges.len()
                &&& same_edge(edges[i], a, b)
                &&& forall|j: int| 0 <= j < i ==> !same_edge(#[trigger] edges[j], a, b)
            },
            None => forall|j: int| 0 <= j < edges.len() ==> !same_edge(#[trigger] edges[j], a, b),
        },
    decreases edges.len(),
{
    if edges.len() > 0 {
        let shorter = edges.drop_last();
        lemma_edge_position(shorter, a, b);
        assert forall|j: int| 0 <= j < shorter.len() implies shorter[j] == edges[j] by {}
        match edge_position(shorter, a, b) {
            Some(i) => {
                assert(shorter[i] == edges[i]);
                assert forall|j: int| 0 <= j < i implies !same_edge(#[trigger] edges[j], a, b) by {
                    assert(shorter[j] == edges[j]);
                }
            },
            None => {
                assert forall|j: int| 0 <= j < shorter.len() implies !same_edge(
                    #[trigger] edges[j],
                    a,
                    b,
                ) by {
                    assert(shorter[j] == edges[j]);
                }
            },
        }
    }
}

/// Two edges have the same key exactly where they join the same vertices.
pub proof fn lemma_pair_key(a: usize, b: usize, c: usize, d: usize)
    ensures
        pair_key(a, b) == pair_key(c, d) <==> same_edge((a, b), c, d),
{
}

/// The key of the edge between two vertices.
fn edge_key(a: usize, b: usize) -> (key: u128)
    ensures
        key == pair_key(a, b),
{
    if a >= b {
        (a as u128) * 0x1_0000_0000_0000_0000 + (b as u128)
    } else {
        (b as u128) * 0x1_0000_0000_0000_0000 + (a as u128)
    }
}

/// The interfaces of a grid, each kept once however often it is asked for.
///
/// An interface is known by the two vertices it joins, in either order. The
/// first time it is asked for it gets the next free number.
pub struct InterfaceCollection {
    interfaces: Vec<GridInterface>,
    index: HashMap<u128, usize>,
}

impl InterfaceCollection {
    /// The interfaces in the order of their numbers, in contracts.
    pub closed spec fn spec_interfaces(&self) -> Seq<GridInterface> {
        self.interfaces@
    }

    /// Whether the collection is sound: the index by which interfaces are
    /// found holds the key of every interface, and nothing else.
    pub closed spec fn valid(&self) -> bool {
        &&& forall|i: int|
            0 <= i < self.interfaces@.len() ==> {
                let edge = #[trigger] edges_of(self.interfaces@)[i];
                &&& self.interfaces@[i].spec_id() == i
                &&& self.interfaces@[i].well_formed()
                &&& self.index@.contains_key(pair_key(edge.0, edge.1))
                &&& self.index@[pair_key(edge.0, edge.1)] == i
            }
        &&& forall|key: u128| #[trigger]
            self.index@.contains_key(key) ==> {
                let i = self.index@[key] as int;
                &&& 0 <= i < self.interfaces@.len()
                &&& pair_key(edges_of(self.interfaces@)[i].0, edges_of(self.interfaces@)[i].1)
                    == key
            }
    }

    /// Every interface stands at the place of its number, and no two join the
    /// same vertices.
    pub open spec fn well_formed(&self) -> bool {
        let interfaces = self.spec_interfaces();
        let edges = edges_of(interfaces);
        &&& forall|i: int|
            0 <= i < interfaces.len() ==> (#[trigger] interfaces[i]).spec_id() == i
                && interfaces[i].well_formed()
        &&& forall|i: int, j: int|
            0 <= i < edges.len() && 0 <= j < edges.len() && i != j ==> !same_edge(
                #[trigger] edges[i],
                (#[trigger] edges[j]).0,
                edges[j].1,
            )
    }

    /// In a sound collection every interface stands at the place of its
    /// number, and no two join the same vertices.
    pub proof fn lemma_well_formed(&self)
        requires
            self.valid(),
        ensures
            self.well_formed(),
    {
        let interfaces = self.spec_interfaces();
        let edges = edges_of(interfaces);
        assert forall|i: int| 0 <= i < interfaces.len() implies (#[trigger] interfaces[i]).spec_id()
            == i && interfaces[i].well_formed() by {
            let edge = edges_of(self.interfaces@)[i];
        }
        assert forall|i: int, j: int|
            0 <= i < edges.len() && 0 <= j < edges.len() && i != j implies !same_edge(
            #[trigger] edges[i],
            (#[trigger] edges[j]).0,
            edges[j].1,
        ) by {
            lemma_pair_key(edges[i].0, edges[i].1, edges[j].0, edges[j].1);
        }
    }

    /// An empty collection, with room for `capacity` interfaces.
    pub fn with_capacity(capacity: usize) -> (collection: InterfaceCollection)
        ensures
            collection.spec_interfaces() == Seq::<GridInterface>::empty(),
            collection.valid(),
            collection.well_formed(),
    {
        broadcast use vstd::std_specs::hash::group_hash_axioms;

        let collection = InterfaceCollection {
            interfaces: Vec::with_capacity(capacity),
            index: HashMap::with_capacity(capacity),
        };
        proof {
            collection.lemma_well_formed();
        }
        collection
    }

    /// The number of interfaces.
    pub fn len(&self) -> (len: usize)
        requires
            self.valid(),
        ensures
            len == self.spec_interfaces().len(),
            self.well_formed(),
    {
        proof {
            self.lemma_well_formed();
        }
        self.interfaces.len()
    }

    /// The number of the interface between the given two vertices: the one it
    /// has, or, where the collection does not hold it yet, the next free one,
    /// under which the interface is then built and kept.
    pub fn add_or_retrieve(&mut self, vertices: &[&GridVertex]) -> (id: Result<usize, GridError>)
        requires
            old(self).valid(),
        ensures
            final(self).valid(),
            final(self).well_formed(),
            vertices@.len() < 2 <==> id == Err::<usize, GridError>(GridError::NotEnoughVertices),
            vertices@.len() > 2 <==> id == Err::<usize, GridError>(GridError::TooManyVertices),
            vertices@.len() == 2 <==> id is Ok,
            id is Err ==> final(self).spec_interfaces() == old(self).spec_interfaces(),
            id matches Ok(found) ==> {
                let a = vertices@[0].spec_id();
                let b = vertices@[1].spec_id();
                let before = old(self).spec_interfaces();
                let after = final(self).spec_interfaces();
                &&& (edges_of(after), found as int) == spec_add_or_retrieve(edges_of(before), a, b)
                &&& edge_position(edges_of(before), a, b) is Some ==> after == before
                &&& edge_position(edges_of(before), a, b) is None ==> after.drop_last() == before
                    && after.last().is_edge(*vertices@[0], *vertices@[1], found)
            },
    {
        broadcast use vstd::std_specs::hash::group_hash_axioms;

        proof {
            self.lemma_well_formed();
        }
        let n = vertices.len();
        if n < 2 {
            return Err(GridError::NotEnoughVertices);
        }
        if n > 2 {
            return Err(GridError::TooManyVertices);
        }
        let a = vertices[0].id();
        let b = vertices[1].id();
        let key = edge_key(a, b);
        let ghost before = self.interfaces@;
        let ghost edges = edges_of(before);
        proof {
            lemma_edge_position(edges, a, b);
            assert forall|j: int| 0 <= j < edges.len() implies (same_edge(edges[j], a, b) <==> pair_key(
                edges[j].0,
                edges[j].1,
            ) == key) by {
                lemma_pair_key(edges[j].0, edges[j].1, a, b);
            }
        }
        match self.index.get(&key) {
            Some(found) => {
                let found = *found;
                proof {
                    let i = found as int;
                    assert(self.index@.contains_key(key));
                    assert(same_edge(edges[i], a, b));
                    assert forall|j: int| 0 <= j < edges.len() && j != i implies !same_edge(
                        #[trigger] edges[j],
                        a,
                        b,
                    ) by {
                        if same_edge(edges[j], a, b) {
                            assert(self.index@[pair_key(edges[j].0, edges[j].1)] == j);
                        }
                    }
                }
                Ok(found)
            },
            None => {
                proof {
                    assert(!self.index@.contains_key(key));
                    assert forall|j: int| 0 <= j < edges.len() implies !same_edge(
                        #[trigger] edges[j],
                        a,
                        b,
                    ) by {
                        if same_edge(edges[j], a, b) {
                            assert(self.index@.contains_key(pair_key(edges[j].0, edges[j].1)));
                        }
                    }
                }
                let id = self.interfaces.len();
                match GridInterface::new_from_vertices(vertices, id) {
                    Err(e) => Err(e),
                    Ok(interface) => {
                        proof {
                            use_type_invariant(&interface);
                        }
                        let ghost old_index = self.index@;
                        self.index.insert(key, id);
                        self.interfaces.push(interface);
                        proof {
                            let after = self.interfaces@;
                            let after_edges = edges_of(after);
                            assert(after.drop_last() =~= before);
                            assert(after_edges =~= edges.push((a, b)));
                            assert forall|i: int| 0 <= i < after.len() implies {
                                let edge = #[trigger] edges_of(after)[i];
                                &&& after[i].spec_id() == i
                                &&& after[i].well_formed()
                                &&& self.index@.contains_key(pair_key(edge.0, edge.1))
                                &&& self.index@[pair_key(edge.0, edge.1)] == i
                            } by {
                                if i < before.len() {
                                    assert(after[i] == before[i]);
                                    assert(edges_of(after)[i] == edges[i]);
                                    let edge = edges[i];
                                    assert(old_index.contains_key(pair_key(edge.0, edge.1)));
                                    assert(!same_edge(edges[i], a, b));
                                }
                            }
                            assert forall|k: u128| #[trigger]
                                self.index@.contains_key(k) implies {
                                let i = self.index@[k] as int;
                                &&& 0 <= i < after.len()
                                &&& pair_key(edges_of(after)[i].0, edges_of(after)[i].1) == k
                            } by {
                                if k != key {
                                    assert(old_index.contains_key(k));
                                    let i = old_index[k] as int;
                                    assert(edges_of(after)[i] == edges[i]);
                                }
                            }
                            self.lemma_well_formed();
                        }
                        Ok(id)
                    },
                }
            },
        }
    }

    /// The number of the interface between the given two vertices, where the
    /// collection holds it.
    pub fn find_interface(&self, vertices: &[&GridVertex]) -> (id: Option<usize>)
        requires
            self.valid(),
        ensures
            self.well_formed(),
            vertices@.len() != 2 ==> id is None,
            vertices@.len() == 2 ==> match edge_position(
                edges_of(self.spec_interfaces()),
                vertices@[0].spec_id(),
                vertices@[1].spec_id(),
            ) {
                Some(i) => id == Some(i as usize),
                None => id is None,
            },
    {
        broadcast use vstd::std_specs::hash::group_hash_axioms;

        proof {
            self.lemma_well_formed();
        }
        if vertices.len() != 2 {
            return None;
        }
        let a = vertices[0].id();
        let b = vertices[1].id();
        let key = edge_key(a, b);
        let ghost edges = edges_of(self.interfaces@);
        proof {
            lemma_edge_position(edges, a, b);
            assert forall|j: int| 0 <= j < edges.len() implies (same_edge(edges[j], a, b) <==> pair_key(
                edges[j].0,
                edges[j].1,
            ) == key) by {
                lemma_pair_key(edges[j].0, edges[j].1, a, b);
            }
        }
        match self.index.get(&key) {
            Some(found) => {
                let found = *found;
                proof {
                    let i = found as int;
                    assert(self.index@.contains_key(key));
                    assert(same_edge(edges[i], a, b));
                    assert forall|j: int| 0 <= j < edges.len() && j != i implies !same_edge(
                        #[trigger] edges[j],
                        a,
                        b,
                    ) by {
                        if same_edge(edges[j], a, b) {
                            assert(self.index@[pair_key(edges[j].0, edges[j].1)] == j);
                        }
                    }
                }
                Some(found)
            },
            None => {
                proof {
                    assert(!self.index@.contains_key(key));
                    assert forall|j: int| 0 <= j < edges.len() implies !same_edge(
                        #[trigger] edges[j],
                        a,
                        b,
                    ) by {
                        if same_edge(edges[j], a, b) {
                            assert(self.index@.contains_key(pair_key(edges[j].0, edges[j].1)));
                        }
                    }
                }
                None
            },
        }
    }

    /// The interface with the given number.
    pub fn interface_with_id(&self, id: usize) -> (interface: &GridInterface)
        requires
            self.valid(),
            id < self.spec_interfaces().len(),
        ensures
            *interface == self.spec_interfaces()[id as int],
            interface.spec_id() == id,
            self.well_formed(),
    {
        proof {
            self.lemma_well_formed();
        }
        &self.interfaces[id]
    }

    /// Gives up the collection for its interfaces, in the order of their
    /// numbers.
    pub fn into_interfaces(self) -> (list: Vec<GridInterface>)
        ensures
            list@ == self.spec_interfaces(),
    {
        self.interfaces
    }

    /// The interfaces, in the order of their numbers.
    pub fn interfaces(&self) -> (list: Vec<GridInterface>)
        ensures
            list@.len() == self.spec_interfaces().len(),
            forall|i: int|
                0 <= i < list@.len() ==> same_interface(
                    #[trigger] list@[i],
                    self.spec_interfaces()[i],
                ),
    {
        let n = self.interfaces.len();
        let mut list: Vec<GridInterface> = Vec::with_capacity(n);
        let mut i: usize = 0;
        while i < n
            invariant
                i <= n,
                n == self.interfaces@.len(),
                list@.len() == i,
                forall|j: int|
                    0 <= j < i ==> same_interface(#[trigger] list@[j], self.interfaces@[j]),
            decreases n - i,
        {
            list.push(self.interfaces[i].clone());
            i = i + 1;
        }
        list
    }
}

/// Whether two interfaces agree in everything.
pub open spec fn same_interface(a: GridInterface, b: GridInterface) -> bool {
    &&& a.spec_vertex_ids() == b.spec_vertex_ids()
    &&& a.spec_id() == b.spec_id()
    &&& a.spec_shape() == b.spec_shape()
    &&& a.spec_tangent() == b.spec_tangent()
    &&& a.spec_normal() == b.spec_normal()
    &&& a.spec_area_squared() == b.spec_area_squared()
    &&& a.spec_centre() == b.spec_centre()
}

/// A descending list with `value` put in its place: after the values that
/// are not smaller, before those that are.
pub open spec fn insert_descending(sorted: Seq<usize>, value: usize) -> Seq<usize>
    decreases sorted.len(),
{
    if sorted.len() == 0 {
        seq![value]
    } else if sorted.last() >= value {
        sorted.push(value)
    } else {
        insert_descending(sorted.drop_last(), value).push(sorted.last())
    }
}

/// The numbers of a list from the largest to the smallest.
pub open spec fn sort_descending(ids: Seq<usize>) -> Seq<usize>
    decreases ids.len(),
{
    if ids.len() == 0 {
        Seq::empty()
    } else {
        insert_descending(sort_descending(ids.drop_last()), ids.last())
    }
}

/// The decimal digits of the numbers of a list, one number after the other.
pub open spec fn concatenated_digits(ids: Seq<usize>) -> Seq<u8>
    decreases ids.len(),
{
    if ids.len() == 0 {
        Seq::empty()
    } else {
        concatenated_digits(ids.drop_last()) + nat_digits(ids.last() as nat)
    }
}

/// The digit key of a list of vertex numbers: the numbers from the largest
/// to the smallest, their digits written one after the other and read as one
/// number. There is none for an empty list, nor where the number does not
/// fit the machine word.
pub open spec fn spec_hash(vertex_ids: Seq<usize>) -> Option<usize> {
    spec_parse_usize(concatenated_digits(sort_descending(vertex_ids)))
}

/// A value is put at the place after the values that are not smaller and
/// before those that are.
proof fn lemma_insert_descending_at(sorted: Seq<usize>, value: usize, place: int)
    requires
        0 <= place <= sorted.len(),
        forall|i: int| place <= i < sorted.len() ==> sorted[i] < value,
        place > 0 ==> sorted[place - 1] >= value,
    ensures
        insert_descending(sorted, value) == sorted.insert(place, value),
    decreases sorted.len() - place,
{
    if place == sorted.len() {
        assert(sorted.insert(place, value) =~= sorted.push(value));
    } else {
        let shorter = sorted.drop_last();
        lemma_insert_descending_at(shorter, value, place);
        assert(shorter.insert(place, value).push(sorted.last()) =~= sorted.insert(place, value));
    }
}

/// Puts `value` in its place in a descending list.
fn insert_in_descending(sorted: &mut Vec<usize>, value: usize)
    ensures
        final(sorted)@ == insert_descending(old(sorted)@, value),
{
    let mut place: usize = sorted.len();
    while place > 0 && sorted[place - 1] < value
        invariant
            place <= sorted@.len(),
            sorted@ == old(sorted)@,
            forall|i: int| place <= i < sorted@.len() ==> sorted@[i] < value,
        decreases place,
    {
        place = place - 1;
    }
    proof {
        lemma_insert_descending_at(sorted@, value, place as int);
    }
    sorted.insert(place, value);
}

/// The digit key of a list of vertex numbers.
///
/// The numbers are sorted from the largest to the smallest, their decimal
/// digits are written one after the other, and the digits are read as one
/// number: `0, 1, 11` gives `1110`. Lists that hold the same numbers in
/// another order give the same key; lists that hold other numbers may give
/// it too.
pub fn hash(vertex_ids: &[usize]) -> (key: Option<usize>)
    ensures
        key == spec_hash(vertex_ids@),
{
    let n = vertex_ids.len();
    let mut sorted: Vec<usize> = Vec::with_capacity(n);
    let mut i: usize = 0;
    proof {
        assert(vertex_ids@.take(0) =~= Seq::<usize>::empty());
    }
    while i < n
        invariant
            i <= n,
            n == vertex_ids@.len(),
            sorted@ == sort_descending(vertex_ids@.take(i as int)),
        decreases n - i,
    {
        proof {
            let next = vertex_ids@.take(i + 1);
            assert(next.drop_last() =~= vertex_ids@.take(i as int));
        }
        insert_in_descending(&mut sorted, vertex_ids[i]);
        i = i + 1;
    }
    proof {
        assert(vertex_ids@.take(n as int) =~= vertex_ids@);
        assert(sorted@.take(0) =~= Seq::<usize>::empty());
    }
    let m = sorted.len();
    let mut text: Vec<u8> = Vec::new();
    let mut k: usize = 0;
    while k < m
        invariant
            k <= m,
            m == sorted@.len(),
            text@ == concatenated_digits(sorted@.take(k as int)),
        decreases m - k,
    {
        proof {
            let next = sorted@.take(k + 1);
            assert(next.drop_last() =~= sorted@.take(k as int));
        }
        let digits = format_usize(sorted[k]);
        append_bytes(&mut text, digits.as_slice());
        k = k + 1;
    }
    proof {
        assert(sorted@.take(m as int) =~= sorted@);
    }
    parse_usize(text.as_slice())
}

/// The digit key of two vertices does not depend on their order.
pub proof fn lemma_hash_of_pair_ignores_order(a: usize, b: usize)
    ensures
        spec_hash(seq![a, b]) == spec_hash(seq![b, a]),
{
    reveal_with_fuel(sort_descending, 3);
    reveal_with_fuel(insert_descending, 3);
    let ab = seq![a, b];
    let ba = seq![b, a];
    assert(ab.drop_last() =~= seq![a]);
    assert(ba.drop_last() =~= seq![b]);
    assert(seq![a].drop_last() =~= Seq::<usize>::empty());
    assert(seq![b].drop_last() =~= Seq::<usize>::empty());
    assert(sort_descending(seq![a]) =~= seq![a]);
    assert(sort_descending(seq![b]) =~= seq![b]);
    if a >= b {
        assert(sort_descending(ab) =~= seq![a, b]);
        assert(sort_descending(ba) =~= seq![a, b]);
    } else {
        assert(sort_descending(ab) =~= seq![b, a]);
        assert(sort_descending(ba) =~= seq![b, a]);
    }
}

/// Asking for the interface between two vertices a second time, in either
/// order of the vertices, gives the number of the first time and leaves the
/// list of edges as it is. The first time the list grows by exactly one edge
/// where it did not hold the edge, and not at all where it did.
pub proof fn lemma_add_or_retrieve_twice(edges: Seq<(usize, usize)>, a: usize, b: usize)
    ensures
        ({
            let first = spec_add_or_retrieve(edges, a, b);
            let same_order = spec_add_or_retrieve(first.0, a, b);
            let other_order = spec_add_or_retrieve(first.0, b, a);
            &&& same_order == first
            &&& other_order == first
            &&& edge_position(edges, a, b) is None ==> first.0.len() == edges.len() + 1
                && first.1 == edges.len()
            &&& edge_position(edges, a, b) is Some ==> first.0 == edges
        }),
{
    let first = spec_add_or_retrieve(edges, a, b);
    lemma_edge_position(edges, a, b);
    lemma_edge_position(first.0, a, b);
    lemma_edge_position(first.0, b, a);
    match edge_position(edges, a, b) {
        Some(i) => {
            assert(same_edge(first.0[i], b, a));
        },
        None => {
            let i = edges.len() as int;
            assert(first.0[i] == (a, b));
            assert(same_edge(first.0[i], a, b));
            assert(same_edge(first.0[i], b, a));
            assert forall|j: int| 0 <= j < i implies !same_edge(#[trigger] first.0[j], a, b)
                && !same_edge(first.0[j], b, a) by {
                assert(first.0[j] == edges[j]);
            }
        },
    }
}

/// A point has exactly one direction from an interface, or none: there is
/// none exactly within the tolerance of the line of the interface, and
/// outside of it the direction is inwards exactly where the normal points to
/// the side of the point.
pub proof fn lemma_direction_is_decided(
    centre_sum: Vector3,
    centre_count: int,
    normal: Vector3,
    point_sum: Vector3,
    point_count: int,
)
    ensures
        ({
            let direction = spec_direction(centre_sum, centre_count, normal, point_sum, point_count);
            let within = within_tolerance(centre_sum, centre_count, normal, point_sum, point_count);
            let d = offset_dot(centre_sum, centre_count, normal, point_sum, point_count);
            &&& direction is Err <==> within
            &&& direction == Err::<Direction, GridError>(GridError::DegenerateOrientation)
                <==> within
            &&& direction == Ok::<Direction, GridError>(Direction::Inwards) <==> !within && d > 0
            &&& direction == Ok::<Direction, GridError>(Direction::Outwards) <==> !within && d
                <= 0
        }),
{
}

/// Seen from the same point, an interface and the interface between the same
/// vertices in the other order have opposite directions, and either has none
/// exactly where the other has none.
pub proof fn lemma_direction_turns_with_the_edge(
    first: Vector3,
    second: Vector3,
    point_sum: Vector3,
    point_count: int,
)
    requires
        first.bounded(COORD_MAX as int),
        second.bounded(COORD_MAX as int),
    ensures
        ({
            let forth = spec_direction(
                first.spec_plus(second),
                2,
                normal_of(second.spec_minus(first)),
                point_sum,
                point_count,
            );
            let back = spec_direction(
                second.spec_plus(first),
                2,
                normal_of(first.spec_minus(second)),
                point_sum,
                point_count,
            );
            let d = offset_dot(
                first.spec_plus(second),
                2,
                normal_of(second.spec_minus(first)),
                point_sum,
                point_count,
            );
            &&& forth is Err <==> back is Err
            &&& d != 0 ==> (forth == Ok::<Direction, GridError>(Direction::Inwards) <==> back
                == Ok::<Direction, GridError>(Direction::Outwards))
            &&& d != 0 ==> (forth == Ok::<Direction, GridError>(Direction::Outwards) <==> back
                == Ok::<Direction, GridError>(Direction::Inwards))
        }),
{
    let centre = first.spec_plus(second);
    let n1 = normal_of(second.spec_minus(first));
    let n2 = normal_of(first.spec_minus(second));
    assert(second.spec_plus(first) == centre);
    assert(n2.x == -n1.x);
    assert(n2.y == -n1.y);
    assert(n2.z == 0 && n1.z == 0);
    let px = point_sum.x * 2 - centre.x * point_count;
    let py = point_sum.y * 2 - centre.y * point_count;
    let pz = point_sum.z * 2 - centre.z * point_count;
    let d1 = offset_dot(centre, 2, n1, point_sum, point_count);
    let d2 = offset_dot(centre, 2, n2, point_sum, point_count);
    assert(d1 == px * n1.x + py * n1.y + pz * n1.z);
    assert(d2 == px * n2.x + py * n2.y + pz * n2.z);
    assert(px * n2.x == -(px * n1.x)) by (nonlinear_arith)
        requires
            n2.x == -n1.x,
    ;
    assert(py * n2.y == -(py * n1.y)) by (nonlinear_arith)
        requires
            n2.y == -n1.y,
    ;
    assert(pz * n2.z == 0 && pz * n1.z == 0) by (nonlinear_arith)
        requires
            n2.z == 0,
            n1.z == 0,
    ;
    assert(d2 == -d1);
    let t = TOLERANCES_PER_STEP as int;
    assert((d2 * t) * (d2 * t) == (d1 * t) * (d1 * t)) by (nonlinear_arith)
        requires
            d2 == -d1,
    ;
    assert(n2.x * n2.x == n1.x * n1.x) by (nonlinear_arith)
        requires
            n2.x == -n1.x,
    ;
    assert(n2.y * n2.y == n1.y * n1.y) by (nonlinear_arith)
        requires
            n2.y == -n1.y,
    ;
    assert(n2.z * n2.z == n1.z * n1.z) by (nonlinear_arith)
        requires
            n2.z == 0,
            n1.z == 0,
    ;
    assert(n2.spec_length_squared() == n1.spec_length_squared());
}

} // verus!
