//! Unstructured two-dimensional grids: vertices, interfaces, cells and blocks.

use crate::common::vector3::Vector3;
use vstd::prelude::*;

/// Vertices of a grid.
pub mod vertex;

/// Cell shapes and cells.
pub mod cell;

/// Means and areas.
pub mod geom_calc;

/// Interfaces and the collection that keeps each one once.
pub mod interface;

/// The SU2 text format.
pub mod su2;

/// Building the cells and interfaces of a mesh.
pub mod topology;

/// Blocks and collections of blocks.
pub mod block;

/// What is written in the SU2 format is read back as it was.
pub mod su2_proofs;

verus! {

/// Why a part of a grid could not be built.
#[derive(Debug, PartialEq, Eq, Clone, Copy, Structural)]
pub enum GridError {
    /// Fewer vertices than the shape needs.
    NotEnoughVertices,
    /// More vertices than any supported shape has.
    TooManyVertices,
    /// An element type code of the mesh format that names no supported shape.
    UnknownElementType,
    /// A point lies on the line of an interface, within the tolerance, so
    /// that the interface faces neither towards it nor away from it.
    DegenerateOrientation,
}

/// Something that is found by a number.
pub trait Id {
    /// The number, in contracts.
    spec fn spec_id(&self) -> usize;

    /// The number.
    fn id(&self) -> (id: usize)
        ensures
            id == self.spec_id(),
    ;
}

/// A point of a grid.
pub trait Vertex: Id {
    /// The position, in contracts.
    spec fn spec_pos(&self) -> Vector3;

    /// The position.
    fn pos(&self) -> (pos: &Vector3)
        ensures
            *pos == self.spec_pos(),
    ;
}

/// The shape of an interface.
#[derive(Debug, PartialEq, Eq, Clone, Copy, Structural)]
pub enum InterfaceShape {
    /// A line between two vertices.
    Line,
}

/// An interface of a grid: a shape on a list of vertices.
pub trait Interface: Id {
    /// The shape, in contracts.
    spec fn spec_shape(&self) -> InterfaceShape;

    /// The numbers of the vertices, in contracts.
    spec fn spec_vertex_ids(&self) -> Seq<usize>;

    /// The shape.
    fn shape(&self) -> (shape: &InterfaceShape)
        ensures
            *shape == self.spec_shape(),
    ;

    /// The numbers of the vertices, in the order they were given.
    fn vertex_ids(&self) -> (ids: &Vec<usize>)
        ensures
            ids@ == self.spec_vertex_ids(),
    ;
}

/// The shape of a cell.
#[derive(Debug, PartialEq, Eq, Clone, Copy, Structural)]
pub enum CellShape {
    /// Three vertices.
    Triangle,
    /// Four vertices.
    Quadrilateral,
}

/// A cell of a grid: a shape on a list of vertices, bounded by interfaces.
pub trait Cell: Id {
    /// The shape, in contracts.
    spec fn spec_shape(&self) -> CellShape;

    /// The numbers of the vertices, in contracts.
    spec fn spec_vertex_ids(&self) -> Seq<usize>;

    /// The numbers of the interfaces, in contracts.
    spec fn spec_interface_ids(&self) -> Seq<usize>;

    /// The shape.
    fn shape(&self) -> (shape: &CellShape)
        ensures
            *shape == self.spec_shape(),
    ;

    /// The numbers of the vertices, in the order they were given.
    fn vertex_ids(&self) -> (ids: &Vec<usize>)
        ensures
            ids@ == self.spec_vertex_ids(),
    ;

    /// The numbers of the interfaces around the cell.
    fn interface_ids(&self) -> (ids: Vec<usize>)
        ensures
            ids@ == self.spec_interface_ids(),
    ;
}

/// The interfaces that lie on one boundary of a block, under the name of the
/// boundary.
#[derive(Debug, PartialEq, Eq)]
pub struct Boundary {
    /// The name of the boundary.
    pub tag: Vec<u8>,
    /// The numbers of the interfaces on the boundary.
    pub interfaces: Vec<usize>,
}

/// A boundary, in contracts.
pub struct BoundaryModel {
    /// The name of the boundary.
    pub tag: Seq<u8>,
    /// The numbers of the interfaces on the boundary.
    pub interfaces: Seq<usize>,
}

impl View for Boundary {
    type V = BoundaryModel;

    open spec fn view(&self) -> BoundaryModel {
        BoundaryModel { tag: self.tag@, interfaces: self.interfaces@ }
    }
}

/// A block of a grid, seen through its parts. What writes a block goes by
/// this alone, whatever keeps the block.
pub trait Block<V: Vertex, I: Interface, C: Cell> {
    /// The vertices, in contracts.
    spec fn spec_vertices(&self) -> Seq<V>;

    /// The interfaces, in contracts.
    spec fn spec_interfaces(&self) -> Seq<I>;

    /// The cells, in contracts.
    spec fn spec_cells(&self) -> Seq<C>;

    /// The boundaries, in contracts.
    spec fn spec_boundaries(&self) -> Seq<Boundary>;

    /// The number of dimensions, in contracts.
    spec fn spec_dimensions(&self) -> u8;

    /// The number of the block, in contracts.
    spec fn spec_block_id(&self) -> usize;

    /// The vertices, in the order of their numbers.
    fn vertices(&self) -> (vertices: &Vec<V>)
        ensures
            vertices@ == self.spec_vertices(),
    ;

    /// The interfaces, in the order of their numbers.
    fn interfaces(&self) -> (interfaces: &Vec<I>)
        ensures
            interfaces@ == self.spec_interfaces(),
    ;

    /// The cells, in the order of their numbers.
    fn cells(&self) -> (cells: &Vec<C>)
        ensures
            cells@ == self.spec_cells(),
    ;

    /// The boundaries.
    fn boundaries(&self) -> (boundaries: &Vec<Boundary>)
        ensures
            boundaries@ == self.spec_boundaries(),
    ;

    /// The number of dimensions.
    fn dimensions(&self) -> (dimensions: u8)
        ensures
            dimensions == self.spec_dimensions(),
    ;

    /// The number of the block.
    fn id(&self) -> (id: usize)
        ensures
            id == self.spec_block_id(),
    ;
}

} // verus!
