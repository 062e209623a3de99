use crate::common::number::append_bytes;
use crate::common::vector3::Vector3;
use crate::finite_volume::fluid_block::FluidBlock;
use crate::grid::block::block_points;
use crate::grid::block::copy_ids;
use crate::grid::block::four_digits;
use crate::grid::block::make_four_digits;
use crate::grid::block::native_extension;
use crate::grid::block::spec_mesh_of;
use crate::grid::block::write_block;
use crate::grid::block::BlockError;
use crate::grid::block::BlockFile;
use crate::grid::block::GridFileType;
use crate::grid::cell::CellShape;
use crate::grid::su2::spec_write_su2;
use crate::grid::Block;
use crate::grid::Boundary;
use crate::grid::Cell;
use crate::grid::Id;
use crate::grid::Interface;
use crate::grid::InterfaceShape;
use crate::grid::Vertex;
use vstd::prelude::*;

verus! {

/// A copy of a vertex for writing.
#[derive(Debug, Clone, Copy, PartialEq, Eq, Structural)]
pub struct VertexIO {
    pos: Vector3,
    id: usize,
}

impl VertexIO {
    /// The copy of the vertex at the given position under the number `id`.
    pub fn new(x: i64, y: i64, z: i64, id: usize) -> (vertex: VertexIO)
        ensures
            vertex.spec_pos() == (Vector3 { x, y, z }),
            vertex.spec_id() == id,
    {
        VertexIO { pos: Vector3 { x, y, z }, id }
    }
}

impl Id for VertexIO {
    closed spec fn spec_id(&self) -> usize {
        self.id
    }

    fn id(&self) -> usize {
        self.id
    }
}

impl Vertex for VertexIO {
    closed spec fn spec_pos(&self) -> Vector3 {
        self.pos
    }

    fn pos(&self) -> &Vector3 {
        &self.pos
    }
}

/// A copy of an interface for writing.
#[derive(Debug, PartialEq, Eq)]
pub struct InterfaceIO {
    id: usize,
    shape: InterfaceShape,
    vertex_ids: Vec<usize>,
}

impl InterfaceIO {
    /// The copy of the interface on the given vertices under the number
    /// `id`.
    pub fn new(id: usize, vertex_ids: Vec<usize>) -> (interface: InterfaceIO)
        ensures
            interface.spec_id() == id,
            interface.spec_shape() == InterfaceShape::Line,
            interface.spec_vertex_ids() == vertex_ids@,
    {
        InterfaceIO { id, shape: InterfaceShape::Line, vertex_ids }
    }
}

impl Id for InterfaceIO {
    closed spec fn spec_id(&self) -> usize {
        self.id
    }

    fn id(&self) -> usize {
        self.id
    }
}

impl Interface for InterfaceIO {
    closed spec fn spec_shape(&self) -> InterfaceShape {
        self.shape
    }

    closed spec fn spec_vertex_ids(&self) -> Seq<usize> {
        self.vertex_ids@
    }

    fn shape(&self) -> &InterfaceShape {
        &self.shape
    }

    fn vertex_ids(&self) -> &Vec<usize> {
        &self.vertex_ids
    }
}

/// A copy of a cell for writing.
#[derive(Debug, PartialEq, Eq)]
pub struct CellIO {
    id: usize,
    vertex_ids: Vec<usize>,
    interface_ids: Vec<usize>,
    shape: CellShape,
}

impl CellIO {
    /// The copy of the cell of the given shape on the given vertices and
    /// interfaces under the number `id`.
    pub fn new(id: usize, vertex_ids: Vec<usize>, interface_ids: Vec<usize>, shape: CellShape) -> (cell:
        CellIO)
        ensures
            cell.spec_id() == id,
            cell.spec_shape() == shape,
            cell.spec_vertex_ids() == vertex_ids@,
            cell.spec_interface_ids() == interface_ids@,
    {
        CellIO { id, vertex_ids, interface_ids, shape }
    }
}

impl Id for CellIO {
    closed spec fn spec_id(&self) -> usize {
        self.id
    }

    fn id(&self) -> usize {
        self.id
    }
}

impl Cell for CellIO {
    closed spec fn spec_shape(&self) -> CellShape {
        self.shape
    }

    closed spec fn spec_vertex_ids(&self) -> Seq<usize> {
        self.vertex_ids@
    }

    closed spec fn spec_interface_ids(&self) -> Seq<usize> {
        self.interface_ids@
    }

    fn shape(&self) -> &CellShape {
        &self.shape
    }

    fn vertex_ids(&self) -> &Vec<usize> {
        &self.vertex_ids
    }

    fn interface_ids(&self) -> Vec<usize> {
        copy_ids(&self.interface_ids)
    }
}

/// A copy of a block of the flow solver for writing: the block is written
/// from the copy, wherever the block itself is kept.
#[derive(Debug)]
pub struct FluidBlockIO {
    vertices: Vec<VertexIO>,
    interfaces: Vec<InterfaceIO>,
    cells: Vec<CellIO>,
    boundaries: Vec<Boundary>,
    dimensions: u8,
    id: usize,
}

/// The name of the file that the block of the flow solver with the number
/// `id` is written to: `blk`, the number in at least four digits, and the
/// native extension.
pub open spec fn fluid_block_file_name(id: usize) -> Seq<u8> {
    seq![98u8, 108u8, 107u8] + four_digits(id as nat) + seq![46u8] + native_extension()
}

impl FluidBlockIO {
    /// What the copy holds of a block of the flow solver: the positions of
    /// its vertices, the vertices of its interfaces and cells, and the
    /// interfaces and shapes of its cells. The copy has no boundaries.
    pub open spec fn copies(&self, fluid_block: FluidBlock) -> bool {
        let interfaces = fluid_block.spec_interfaces();
        let cells = fluid_block.spec_cells();
        &&& self.spec_block_id() == fluid_block.spec_id()
        &&& self.spec_dimensions() == fluid_block.spec_dimensions()
        &&& self.spec_boundaries().len() == 0
        &&& block_points(self.spec_vertices()) == fluid_block.spec_vertices()
        &&& forall|i: int|
            0 <= i < self.spec_vertices().len() ==> (#[trigger] self.spec_vertices()[i]).spec_id()
                == i
        &&& self.spec_interfaces().len() == interfaces.spec_len()
        &&& forall|i: int|
            0 <= i < self.spec_interfaces().len() ==> (
            #[trigger] self.spec_interfaces()[i]).spec_id() == i
                && self.spec_interfaces()[i].spec_vertex_ids() == interfaces.spec_vertices()[i]
        &&& self.spec_cells().len() == cells.spec_len()
        &&& forall|i: int|
            0 <= i < self.spec_cells().len() ==> {
                let cell = #[trigger] self.spec_cells()[i];
                &&& cell.spec_id() == i
                &&& cell.spec_vertex_ids() == cells.spec_vertices()[i]
                &&& cell.spec_interface_ids() == cells.spec_interfaces()[i]
                &&& cell.spec_shape() == cells.spec_shape()[i]
            }
    }

    /// Copies a block of the flow solver for writing.
    pub fn new(fluid_block: &FluidBlock) -> (copy: FluidBlockIO)
        requires
            fluid_block.valid(),
        ensures
            copy.copies(*fluid_block),
    {
        let positions = fluid_block.vertices();
        let n = positions.len();
        let mut vertices: Vec<VertexIO> = Vec::with_capacity(n);
        let mut i: usize = 0;
        while i < n
            invariant
                i <= n,
                positions.valid(),
                n == positions.spec_vectors().len(),
                vertices@.len() == i,
                forall|j: int|
                    0 <= j < i ==> (#[trigger] vertices@[j]).spec_pos()
                        == positions.spec_vectors()[j] && vertices@[j].spec_id() == j,
            decreases n - i,
        {
            let p = positions.get(i);
            vertices.push(VertexIO::new(p.x, p.y, p.z, i));
            i = i + 1;
        }
        let interface_lists = fluid_block.interfaces();
        let interface_vertices = interface_lists.vertices();
        let m = interface_lists.len();
        let mut interfaces: Vec<InterfaceIO> = Vec::with_capacity(m);
        let mut i: usize = 0;
        proof {
            interface_lists.lemma_lengths();
        }
        while i < m
            invariant
                i <= m,
                interface_vertices.valid(),
                m == interface_vertices.spec_groups().len(),
                interfaces@.len() == i,
                forall|j: int|
                    0 <= j < i ==> (#[trigger] interfaces@[j]).spec_id() == j
                        && interfaces@[j].spec_vertex_ids() == interface_vertices.spec_groups()[j],
            decreases m - i,
        {
            let group = interface_vertices.get(i);
            let ids = crate::grid::block::copy_id_slice(group);
            interfaces.push(InterfaceIO::new(i, ids));
            i = i + 1;
        }
        let cell_lists = fluid_block.cells();
        let cell_vertices = cell_lists.vertices();
        let cell_interfaces = cell_lists.interfaces();
        let shapes = cell_lists.shape();
        let k = cell_lists.len();
        let mut cells: Vec<CellIO> = Vec::with_capacity(k);
        let mut i: usize = 0;
        proof {
            cell_lists.lemma_lengths();
        }
        while i < k
            invariant
                i <= k,
                cell_vertices.valid(),
                cell_interfaces.valid(),
                k == cell_vertices.spec_groups().len(),
                k == cell_interfaces.spec_groups().len(),
                k == shapes@.len(),
                cells@.len() == i,
                forall|j: int|
                    0 <= j < i ==> {
                        let cell = #[trigger] cells@[j];
                        &&& cell.spec_id() == j
                        &&& cell.spec_vertex_ids() == cell_vertices.spec_groups()[j]
                        &&& cell.spec_interface_ids() == cell_interfaces.spec_groups()[j]
                        &&& cell.spec_shape() == shapes@[j]
                    },
            decreases k - i,
        {
            let vertex_ids = crate::grid::block::copy_id_slice(cell_vertices.get(i));
            let interface_ids = crate::grid::block::copy_id_slice(cell_interfaces.get(i));
            cells.push(CellIO::new(i, vertex_ids, interface_ids, shapes[i]));
            i = i + 1;
        }
        let copy = FluidBlockIO {
            vertices,
            interfaces,
            cells,
            boundaries: Vec::new(),
            dimensions: fluid_block.dimensions(),
            id: fluid_block.id(),
        };
        proof {
            assert(block_points(copy.spec_vertices()) =~= fluid_block.spec_vertices());
        }
        copy
    }

    /// The file that holds the block in the native format: its name and its
    /// text.
    pub fn write_fluid_block(&self) -> (file: Result<BlockFile, BlockError>)
        ensures
            match spec_mesh_of(self) {
                Some(mesh) => file matches Ok(found) && found.name@ == fluid_block_file_name(
                    self.spec_block_id(),
                ) && found.text@ == spec_write_su2(mesh),
                None => file is Err,
            },
    {
        let mut name: Vec<u8> = vec![98u8, 108u8, 107u8];
        let digits = make_four_digits(self.id);
        append_bytes(&mut name, digits.as_slice());
        name.push(46u8);
        let ext = GridFileType::Native.extension();
        append_bytes(&mut name, ext.as_slice());
        proof {
            assert(name@ =~= fluid_block_file_name(self.id));
            let stem = seq![98u8, 108u8, 107u8] + four_digits(self.id as nat);
            crate::grid::block::lemma_four_digits(self.id as nat);
            assert forall|i: int| 0 <= i < stem.len() implies #[trigger] stem[i] != 46 && stem[i]
                != 47 by {
                if i >= 3 {
                    assert(stem[i] == four_digits(self.id as nat)[i - 3]);
                }
            }
            crate::grid::block::lemma_native_name(stem);
        }
        match write_block(self, name.as_slice()) {
            Err(e) => Err(e),
            Ok(text) => Ok(BlockFile { name, text }),
        }
    }
}

impl Block<VertexIO, InterfaceIO, CellIO> for FluidBlockIO {
    closed spec fn spec_vertices(&self) -> Seq<VertexIO> {
        self.vertices@
    }

    closed spec fn spec_interfaces(&self) -> Seq<InterfaceIO> {
        self.interfaces@
    }

    closed spec fn spec_cells(&self) -> Seq<CellIO> {
        self.cells@
    }

    closed spec fn spec_boundaries(&self) -> Seq<Boundary> {
        self.boundaries@
    }

    closed spec fn spec_dimensions(&self) -> u8 {
        self.dimensions
    }

    closed spec fn spec_block_id(&self) -> usize {
        self.id
    }

    fn vertices(&self) -> &Vec<VertexIO> {
        &self.vertices
    }

    fn interfaces(&self) -> &Vec<InterfaceIO> {
        &self.interfaces
    }

    fn cells(&self) -> &Vec<CellIO> {
        &self.cells
    }

    fn boundaries(&self) -> &Vec<Boundary> {
        &self.boundaries
    }

    fn dimensions(&self) -> u8 {
        self.dimensions
    }

    fn id(&self) -> usize {
        self.id
    }
}

} // verus!
