use crate::common::vector3::ArrayVec3;
use crate::common::vector3::Vector3;
use crate::finite_volume::boundary_conditions::BoundaryCondition;
use crate::finite_volume::cells::Cells;
use crate::finite_volume::interface::Interfaces;
use crate::grid::block::GridBlock;
use crate::grid::topology::points_of;
use crate::grid::Block;
use crate::grid::Vertex;
use vstd::prelude::*;

verus! {

/// A block as the flow solver keeps it: the positions of the vertices, and
/// the interfaces and cells in lists of their properties.
#[derive(Debug)]
pub struct FluidBlock {
    vertices: ArrayVec3,
    interfaces: Interfaces,
    cells: Cells,
    boundaries: Vec<BoundaryCondition>,
    id: usize,
    dimensions: u8,
}

impl FluidBlock {
    /// Whether the lists of the block are sound.
    pub closed spec fn valid(&self) -> bool {
        &&& self.vertices.valid()
        &&& self.interfaces.valid()
        &&& self.cells.valid()
    }

    /// The positions of the vertices, in contracts.
    pub closed spec fn spec_vertices(&self) -> Seq<Vector3> {
        self.vertices.spec_vectors()
    }

    /// The interfaces, in contracts.
    pub closed spec fn spec_interfaces(&self) -> Interfaces {
        self.interfaces
    }

    /// The cells, in contracts.
    pub closed spec fn spec_cells(&self) -> Cells {
        self.cells
    }

    /// The boundaries, in contracts.
    pub closed spec fn spec_boundaries(&self) -> Seq<BoundaryCondition> {
        self.boundaries@
    }

    /// The number of the block, in contracts.
    pub closed spec fn spec_id(&self) -> usize {
        self.id
    }

    /// The number of dimensions, in contracts.
    pub closed spec fn spec_dimensions(&self) -> u8 {
        self.dimensions
    }

    /// The block of the flow solver for a block of the grid, with the given
    /// boundaries.
    pub fn from_grid_block(block: &GridBlock, boundaries: Vec<BoundaryCondition>) -> (fluid:
        FluidBlock)
        ensures
            fluid.valid(),
            fluid.spec_vertices() == points_of(block.spec_vertices()),
            fluid.spec_interfaces().holds_interfaces(block.spec_interfaces()),
            fluid.spec_cells().holds_cells(block.spec_cells()),
            fluid.spec_boundaries() == boundaries@,
            fluid.spec_id() == block.spec_block_id(),
            fluid.spec_dimensions() == block.spec_dimensions(),
    {
        let grid_vertices = block.vertices();
        let n = grid_vertices.len();
        let mut points: Vec<Vector3> = Vec::with_capacity(n);
        let mut i: usize = 0;
        while i < n
            invariant
                i <= n,
                n == grid_vertices@.len(),
                points@.len() == i,
                forall|j: int| 0 <= j < i ==> points@[j] == (#[trigger] grid_vertices@[j]).spec_pos(),
            decreases n - i,
        {
            points.push(*grid_vertices[i].pos());
            i = i + 1;
        }
        proof {
            assert(points@ =~= points_of(grid_vertices@));
        }
        FluidBlock {
            vertices: ArrayVec3::from_vector3s(points.as_slice()),
            interfaces: Interfaces::from_grid_interfaces(block.interfaces()),
            cells: Cells::from_grid_cells(block.cells()),
            boundaries,
            id: block.id(),
            dimensions: block.dimensions(),
        }
    }

    /// The positions of the vertices.
    pub fn vertices(&self) -> (vertices: &ArrayVec3)
        ensures
            vertices.spec_vectors() == self.spec_vertices(),
            self.valid() ==> vertices.valid(),
    {
        &self.vertices
    }

    /// The interfaces.
    pub fn interfaces(&self) -> (interfaces: &Interfaces)
        ensures
            *interfaces == self.spec_interfaces(),
            self.valid() ==> interfaces.valid(),
    {
        &self.interfaces
    }

    /// The cells.
    pub fn cells(&self) -> (cells: &Cells)
        ensures
            *cells == self.spec_cells(),
            self.valid() ==> cells.valid(),
    {
        &self.cells
    }

    /// The boundaries.
    pub fn boundaries(&self) -> (boundaries: &Vec<BoundaryCondition>)
        ensures
            boundaries@ == self.spec_boundaries(),
    {
        &self.boundaries
    }

    /// The number of the block.
    pub fn id(&self) -> (id: usize)
        ensures
            id == self.spec_id(),
    {
        self.id
    }

    /// The number of dimensions.
    pub fn dimensions(&self) -> (dimensions: u8)
        ensures
            dimensions == self.spec_dimensions(),
    {
        self.dimensions
    }
}

} // verus!
