//! Exact geometry on the positions of vertices.
//!
//! A mean of vertices is kept as their sum and their number, and an area as
//! twice its value, so that nothing is rounded.

use crate::common::number::COORD_MAX;
use crate::common::vector3::mul_wide;
use crate::common::vector3::Vector3;
use crate::grid::vertex::GridVertex;
use crate::grid::Vertex;
use vstd::prelude::*;

verus! {

/// The most points that a mean is taken of: the vertices of a quadrilateral.
pub const MEAN_MAX_COUNT: u8 = 4;

/// The mean of a few points, kept exactly: the sum of the points and their
/// number.
#[derive(Debug, Clone, Copy, PartialEq, Eq, Structural)]
pub struct MeanPoint {
    sum: Vector3,
    count: u8,
}

impl MeanPoint {
    /// The sum of the points, in contracts.
    pub closed spec fn spec_sum(&self) -> Vector3 {
        self.sum
    }

    /// The number of points, in contracts.
    pub closed spec fn spec_count(&self) -> u8 {
        self.count
    }

    /// A mean is of one to four points, each within the range of coordinates.
    #[verifier::type_invariant]
    pub open spec fn well_formed(&self) -> bool {
        &&& 1 <= self.spec_count() <= MEAN_MAX_COUNT
        &&& self.spec_sum().bounded(self.spec_count() * COORD_MAX)
    }

    /// The mean of one point: the point itself.
    pub fn of_point(point: Vector3) -> (mean: MeanPoint)
        requires
            point.bounded(COORD_MAX as int),
        ensures
            mean.spec_sum() == point,
            mean.spec_count() == 1,
    {
        MeanPoint { sum: point, count: 1 }
    }

    /// The sum of the points.
    pub fn sum(&self) -> (sum: Vector3)
        ensures
            sum == self.spec_sum(),
            self.well_formed(),
    {
        proof {
            use_type_invariant(self);
        }
        self.sum
    }

    /// The number of points.
    pub fn count(&self) -> (count: u8)
        ensures
            count == self.spec_count(),
            self.well_formed(),
    {
        proof {
            use_type_invariant(self);
        }
        self.count
    }
}

/// The positions of a list of vertices.
pub open spec fn positions_of(vertices: Seq<&GridVertex>) -> Seq<Vector3> {
    Seq::new(vertices.len(), |i: int| vertices[i].spec_pos())
}

/// The sum of a list of positions.
pub open spec fn vector_sum(positions: Seq<Vector3>) -> Vector3
    decreases positions.len(),
{
    if positions.len() == 0 {
        Vector3 { x: 0, y: 0, z: 0 }
    } else {
        vector_sum(positions.drop_last()).spec_plus(positions.last())
    }
}

/// Twice the signed area of the triangle `a`, `b`, `c` in the x-y plane;
/// positive where the vertices run anticlockwise.
pub open spec fn triangle_signed_area_doubled(a: Vector3, b: Vector3, c: Vector3) -> int {
    a.x * (b.y - c.y) + b.x * (c.y - a.y) + c.x * (a.y - b.y)
}

/// Twice the signed area of the quadrilateral `a`, `b`, `c`, `d` in the x-y
/// plane, its vertices taken in this order.
pub open spec fn quad_signed_area_doubled(a: Vector3, b: Vector3, c: Vector3, d: Vector3) -> int {
    (a.x * b.y + b.x * c.y + c.x * d.y + d.x * a.y) - (b.x * a.y + c.x * b.y + d.x * c.y + a.x
        * d.y)
}

/// The magnitude of a number.
pub open spec fn magnitude(value: int) -> int {
    if value < 0 {
        -value
    } else {
        value
    }
}

/// Twice the area of the triangle with the given three positions.
pub open spec fn spec_triangle_area_doubled(positions: Seq<Vector3>) -> int {
    magnitude(triangle_signed_area_doubled(positions[0], positions[1], positions[2]))
}

/// Twice the area of the quadrilateral with the given four positions.
pub open spec fn spec_quad_area_doubled(positions: Seq<Vector3>) -> int {
    magnitude(quad_signed_area_doubled(positions[0], positions[1], positions[2], positions[3]))
}

/// The sum of in-range positions is bounded by their number.
pub proof fn lemma_vector_sum_bounded(positions: Seq<Vector3>)
    requires
        forall|i: int| 0 <= i < positions.len() ==> (#[trigger] positions[i]).bounded(
            COORD_MAX as int,
        ),
        positions.len() <= 16,
    ensures
        vector_sum(positions).bounded(positions.len() * COORD_MAX),
    decreases positions.len(),
{
    if positions.len() > 0 {
        let shorter = positions.drop_last();
        assert forall|i: int| 0 <= i < shorter.len() implies (#[trigger] shorter[i]).bounded(
            COORD_MAX as int,
        ) by {
            assert(shorter[i] == positions[i]);
        }
        lemma_vector_sum_bounded(shorter);
        assert(positions.last() == positions[positions.len() - 1]);
    }
}

/// The mean of the positions of one to four vertices.
pub fn compute_centre_of_vertices(vertices: &[&GridVertex]) -> (centre: MeanPoint)
    requires
        1 <= vertices@.len() <= MEAN_MAX_COUNT,
    ensures
        centre.spec_sum() == vector_sum(positions_of(vertices@)),
        centre.spec_count() == vertices@.len(),
{
    let n = vertices.len();
    let mut sum = Vector3 { x: 0, y: 0, z: 0 };
    let mut i: usize = 0;
    let ghost positions = positions_of(vertices@);
    proof {
        assert(positions.take(0) =~= Seq::<Vector3>::empty());
    }
    while i < n
        invariant
            i <= n <= 4,
            n == vertices@.len(),
            positions == positions_of(vertices@),
            sum == vector_sum(positions.take(i as int)),
            sum.bounded(i * COORD_MAX),
        decreases n - i,
    {
        let vertex = vertices[i];
        let pos = vertex.pos();
        proof {
            use_type_invariant(vertex);
            let next = positions.take(i + 1);
            assert(next.drop_last() =~= positions.take(i as int));
            assert(next.last() == *pos);
        }
        sum = Vector3 { x: sum.x + pos.x, y: sum.y + pos.y, z: sum.z + pos.z };
        i = i + 1;
    }
    proof {
        assert(positions.take(n as int) =~= positions);
    }
    MeanPoint { sum, count: n as u8 }
}

/// The magnitude of a number.
fn magnitude_wide(value: i128) -> (m: i128)
    requires
        value > i128::MIN,
    ensures
        m == magnitude(value as int),
{
    if value < 0 {
        -value
    } else {
        value
    }
}

/// Twice the area of the triangle with the given three vertices.
pub fn triangle_area_doubled(vertices: &[&GridVertex]) -> (area: i128)
    requires
        vertices@.len() == 3,
    ensures
        area == spec_triangle_area_doubled(positions_of(vertices@)),
        area >= 0,
{
    let va = vertices[0];
    let vb = vertices[1];
    let vc = vertices[2];
    let a = va.pos();
    let b = vb.pos();
    let c = vc.pos();
    proof {
        use_type_invariant(va);
        use_type_invariant(vb);
        use_type_invariant(vc);
    }
    let signed = mul_wide(a.x, b.y - c.y) + mul_wide(b.x, c.y - a.y) + mul_wide(
        c.x,
        a.y - b.y,
    );
    magnitude_wide(signed)
}

/// Twice the area of the quadrilateral with the given four vertices, by the
/// shoelace formula.
pub fn quad_area_doubled(vertices: &[&GridVertex]) -> (area: i128)
    requires
        vertices@.len() == 4,
    ensures
        area == spec_quad_area_doubled(positions_of(vertices@)),
        area >= 0,
{
    let va = vertices[0];
    let vb = vertices[1];
    let vc = vertices[2];
    let vd = vertices[3];
    let a = va.pos();
    let b = vb.pos();
    let c = vc.pos();
    let d = vd.pos();
    proof {
        use_type_invariant(va);
        use_type_invariant(vb);
        use_type_invariant(vc);
        use_type_invariant(vd);
    }
    let plus = mul_wide(a.x, b.y) + mul_wide(b.x, c.y) + mul_wide(c.x, d.y) + mul_wide(
        d.x,
        a.y,
    );
    let minus = mul_wide(b.x, a.y) + mul_wide(c.x, b.y) + mul_wide(d.x, c.y) + mul_wide(
        a.x,
        d.y,
    );
    magnitude_wide(plus - minus)
}

/// Twice the signed area of a triangle is the cross product of two of its
/// sides, so the area is zero exactly where the vertices lie on one line.
pub proof fn lemma_triangle_area_is_cross_product(a: Vector3, b: Vector3, c: Vector3)
    ensures
        triangle_signed_area_doubled(a, b, c) == b.spec_minus_exact_x(a) * c.spec_minus_exact_y(a)
            - c.spec_minus_exact_x(a) * b.spec_minus_exact_y(a),
{
    let (ax, ay) = (a.x as int, a.y as int);
    let (bx, by) = (b.x as int, b.y as int);
    let (cx, cy) = (c.x as int, c.y as int);
    assert(ax * (by - cy) + bx * (cy - ay) + cx * (ay - by) == (bx - ax) * (cy - ay) - (cx - ax)
        * (by - ay)) by (nonlinear_arith);
}

} // verus!
