use crate::finite_volume::util::Ids;
use crate::grid::cell::CellShape;
use crate::grid::cell::GridCell;
use crate::grid::geom_calc::MeanPoint;
use crate::grid::interface::Direction;
use crate::grid::Cell;
use vstd::prelude::*;

verus! {

/// The directions of the faces of a cell.
pub open spec fn directions_of(cell: GridCell) -> Seq<Direction> {
    Seq::new(cell.spec_cell_faces().len(), |j: int| cell.spec_cell_faces()[j].spec_direction())
}

/// The directions of the faces of the cells of a list, cell after cell.
pub open spec fn all_directions(cells: Seq<GridCell>) -> Seq<Direction>
    decreases cells.len(),
{
    if cells.len() == 0 {
        Seq::empty()
    } else {
        all_directions(cells.drop_last()) + directions_of(cells.last())
    }
}

/// The cells of a block, each property in a list of its own, in the order
/// of the numbers of the cells.
#[derive(Debug)]
pub struct Cells {
    vertices: Ids,
    interfaces: Ids,
    interface_directions: Vec<Direction>,
    volume_doubled: Vec<i128>,
    centre: Vec<MeanPoint>,
    shape: Vec<CellShape>,
    length: usize,
}

impl Cells {
    /// Whether every list holds what belongs to as many cells as there are.
    pub closed spec fn valid(&self) -> bool {
        &&& self.vertices.valid()
        &&& self.interfaces.valid()
        &&& self.vertices.spec_groups().len() == self.length
        &&& self.interfaces.spec_groups().len() == self.length
        &&& self.volume_doubled@.len() == self.length
        &&& self.centre@.len() == self.length
        &&& self.shape@.len() == self.length
    }

    /// The number of cells, in contracts.
    pub closed spec fn spec_len(&self) -> usize {
        self.length
    }

    /// The vertices of every cell, in contracts.
    pub closed spec fn spec_vertices(&self) -> Seq<Seq<usize>> {
        self.vertices.spec_groups()
    }

    /// The interfaces of every cell, in contracts.
    pub closed spec fn spec_interfaces(&self) -> Seq<Seq<usize>> {
        self.interfaces.spec_groups()
    }

    /// The directions of the interfaces, cell after cell, in contracts.
    pub closed spec fn spec_interface_directions(&self) -> Seq<Direction> {
        self.interface_directions@
    }

    /// Twice the volumes, in contracts.
    pub closed spec fn spec_volume_doubled(&self) -> Seq<i128> {
        self.volume_doubled@
    }

    /// The centres, in contracts.
    pub closed spec fn spec_centre(&self) -> Seq<MeanPoint> {
        self.centre@
    }

    /// The shapes, in contracts.
    pub closed spec fn spec_shape(&self) -> Seq<CellShape> {
        self.shape@
    }

    /// In sound lists every list holds one entry for each cell.
    pub proof fn lemma_lengths(&self)
        requires
            self.valid(),
        ensures
            self.spec_vertices().len() == self.spec_len(),
            self.spec_interfaces().len() == self.spec_len(),
            self.spec_volume_doubled().len() == self.spec_len(),
            self.spec_centre().len() == self.spec_len(),
            self.spec_shape().len() == self.spec_len(),
    {
    }

    /// Whether the lists hold what the given cells have, each at the place
    /// of the cell.
    pub open spec fn holds_cells(&self, cells: Seq<GridCell>) -> bool {
        &&& self.spec_len() == cells.len()
        &&& self.spec_vertices().len() == cells.len()
        &&& self.spec_interfaces().len() == cells.len()
        &&& self.spec_volume_doubled().len() == cells.len()
        &&& self.spec_centre().len() == cells.len()
        &&& self.spec_shape().len() == cells.len()
        &&& self.spec_interface_directions() == all_directions(cells)
        &&& forall|i: int|
            0 <= i < cells.len() ==> {
                let cell = #[trigger] cells[i];
                &&& self.spec_vertices()[i] == cell.spec_vertex_ids()
                &&& self.spec_interfaces()[i] == cell.spec_interface_ids()
                &&& self.spec_volume_doubled()[i] == cell.spec_volume_doubled()
                &&& self.spec_centre()[i] == cell.spec_centre()
                &&& self.spec_shape()[i] == cell.spec_shape()
            }
    }

    /// The lists of what the given cells have.
    pub fn from_grid_cells(cells: &Vec<GridCell>) -> (lists: Cells)
        ensures
            lists.valid(),
            lists.holds_cells(cells@),
    {
        let n = cells.len();
        let (vertices, interfaces) = Ids::from_cells(cells);
        let mut interface_directions: Vec<Direction> = Vec::new();
        let mut volume_doubled: Vec<i128> = Vec::with_capacity(n);
        let mut centre: Vec<MeanPoint> = Vec::with_capacity(n);
        let mut shape: Vec<CellShape> = Vec::with_capacity(n);
        let mut i: usize = 0;
        proof {
            assert(cells@.take(0) =~= Seq::<GridCell>::empty());
        }
        while i < n
            invariant
                i <= n,
                n == cells@.len(),
                volume_doubled@.len() == i,
                centre@.len() == i,
                shape@.len() == i,
                interface_directions@ == all_directions(cells@.take(i as int)),
                forall|j: int|
                    0 <= j < i ==> {
                        let cell = #[trigger] cells@[j];
                        &&& volume_doubled@[j] == cell.spec_volume_doubled()
                        &&& centre@[j] == cell.spec_centre()
                        &&& shape@[j] == cell.spec_shape()
                    },
            decreases n - i,
        {
            let cell = &cells[i];
            volume_doubled.push(cell.volume_doubled());
            centre.push(*cell.centre());
            shape.push(*cell.shape());
            let faces = cell.cell_faces();
            let m = faces.len();
            let ghost before = interface_directions@;
            let mut j: usize = 0;
            proof {
                assert(directions_of(*cell).take(0) =~= Seq::<Direction>::empty());
                assert(before + Seq::<Direction>::empty() =~= before);
            }
            while j < m
                invariant
                    j <= m,
                    m == faces@.len(),
                    faces@ == cell.spec_cell_faces(),
                    interface_directions@ == before + directions_of(*cell).take(j as int),
                decreases m - j,
            {
                interface_directions.push(*faces[j].direction());
                proof {
                    assert(directions_of(*cell).take(j + 1) =~= directions_of(*cell).take(
                        j as int,
                    ).push(directions_of(*cell)[j as int]));
                }
                j = j + 1;
            }
            proof {
                assert(directions_of(*cell).take(m as int) =~= directions_of(*cell));
                assert(cells@.take(i + 1).drop_last() =~= cells@.take(i as int));
                assert(cells@.take(i + 1).last() == *cell);
            }
            i = i + 1;
        }
        proof {
            assert(cells@.take(n as int) =~= cells@);
        }
        Cells { vertices, interfaces, interface_directions, volume_doubled, centre, shape, length: n }
    }

    /// The numbers of the vertices of every cell.
    pub fn vertices(&self) -> (vertices: &Ids)
        ensures
            vertices.spec_groups() == self.spec_vertices(),
            self.valid() ==> vertices.valid(),
    {
        &self.vertices
    }

    /// The numbers of the interfaces of every cell.
    pub fn interfaces(&self) -> (interfaces: &Ids)
        ensures
            interfaces.spec_groups() == self.spec_interfaces(),
            self.valid() ==> interfaces.valid(),
    {
        &self.interfaces
    }

    /// The directions of the interfaces of the cells, cell after cell.
    pub fn interface_directions(&self) -> (directions: &[Direction])
        ensures
            directions@ == self.spec_interface_directions(),
    {
        self.interface_directions.as_slice()
    }

    /// Twice the volumes of the cells.
    pub fn volume_doubled(&self) -> (volumes: &[i128])
        ensures
            volumes@ == self.spec_volume_doubled(),
    {
        self.volume_doubled.as_slice()
    }

    /// The centres of the cells.
    pub fn centre(&self) -> (centre: &[MeanPoint])
        ensures
            centre@ == self.spec_centre(),
    {
        self.centre.as_slice()
    }

    /// The number of cells.
    pub fn len(&self) -> (len: usize)
        ensures
            len == self.spec_len(),
    {
        self.length
    }

    /// The shapes of the cells.
    pub fn shape(&self) -> (shape: &[CellShape])
        ensures
            shape@ == self.spec_shape(),
    {
        self.shape.as_slice()
    }
}

} // verus!
