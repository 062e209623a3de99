use crate::common::number::COORD_MAX;
use crate::common::vector3::Vector3;
use crate::grid::Id;
use crate::grid::Vertex;
use vstd::prelude::*;

verus! {

/// A vertex of a grid: a position and the number it is found by.
#[derive(Debug, Clone, Copy, PartialEq, Eq, Structural)]
pub struct GridVertex {
    pos: Vector3,
    id: usize,
}

impl GridVertex {
    /// Every vertex lies within the range of coordinates.
    #[verifier::type_invariant]
    pub open spec fn well_formed(&self) -> bool {
        self.spec_pos().bounded(COORD_MAX as int)
    }

    /// Creates a vertex.
    pub fn new(pos: Vector3, id: usize) -> (vertex: GridVertex)
        requires
            pos.bounded(COORD_MAX as int),
        ensures
            vertex.spec_pos() == pos,
            vertex.spec_id() == id,
    {
        GridVertex { pos, id }
    }

    /// The vector from this vertex to `other`.
    pub fn vector_to(&self, other: &GridVertex) -> (vector: Vector3)
        ensures
            vector == other.spec_pos().spec_minus(self.spec_pos()),
            vector.bounded(2 * COORD_MAX),
    {
        proof {
            use_type_invariant(self);
            use_type_invariant(other);
        }
        Vector3 {
            x: other.pos.x - self.pos.x,
            y: other.pos.y - self.pos.y,
            z: other.pos.z - self.pos.z,
        }
    }

    /// The square of the distance to `other`.
    pub fn dist_squared_to(&self, other: &GridVertex) -> (square: i128)
        ensures
            square == other.spec_pos().spec_minus(self.spec_pos()).spec_length_squared(),
            square >= 0,
    {
        proof {
            use_type_invariant(self);
            use_type_invariant(other);
        }
        self.pos.dist_squared_to(&other.pos)
    }
}

impl Id for GridVertex {
    closed spec fn spec_id(&self) -> usize {
        self.id
    }

    fn id(&self) -> usize {
        self.id
    }
}

impl Vertex for GridVertex {
    closed spec fn spec_pos(&self) -> Vector3 {
        self.pos
    }

    fn pos(&self) -> &Vector3 {
        &self.pos
    }
}

} // verus!
