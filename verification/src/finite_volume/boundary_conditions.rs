use crate::grid::Boundary;
use vstd::prelude::*;

verus! {

/// A boundary of a block as the flow solver treats it.
#[derive(Debug, PartialEq, Eq)]
pub struct BoundaryCondition {
    tag: Vec<u8>,
    convective_flux_computed_in_boundary: bool,
    has_ghost_cells: bool,
    interfaces: Vec<usize>,
}

impl BoundaryCondition {
    /// The name of the boundary, in contracts.
    pub closed spec fn spec_tag(&self) -> Seq<u8> {
        self.tag@
    }

    /// The interfaces on the boundary, in contracts.
    pub closed spec fn spec_interfaces(&self) -> Seq<usize> {
        self.interfaces@
    }

    /// Whether the boundary computes the convective flux itself, in contracts.
    pub closed spec fn spec_convective_flux_computed_in_boundary(&self) -> bool {
        self.convective_flux_computed_in_boundary
    }

    /// Whether the boundary has ghost cells, in contracts.
    pub closed spec fn spec_has_ghost_cells(&self) -> bool {
        self.has_ghost_cells
    }

    /// The condition on the given boundary of a grid.
    pub fn new(
        boundary: &Boundary,
        convective_flux_computed_in_boundary: bool,
        has_ghost_cells: bool,
    ) -> (condition: BoundaryCondition)
        ensures
            condition.spec_tag() == boundary.tag@,
            condition.spec_interfaces() == boundary.interfaces@,
            condition.spec_convective_flux_computed_in_boundary()
                == convective_flux_computed_in_boundary,
            condition.spec_has_ghost_cells() == has_ghost_cells,
    {
        let tag = crate::common::text::copy_range(boundary.tag.as_slice(), 0, boundary.tag.len());
        let interfaces = crate::grid::block::copy_ids(&boundary.interfaces);
        proof {
            assert(tag@ =~= boundary.tag@);
        }
        BoundaryCondition { tag, convective_flux_computed_in_boundary, has_ghost_cells, interfaces }
    }

    /// Whether the boundary has ghost cells.
    pub fn has_ghost_cells(&self) -> (ghost_cells: bool)
        ensures
            ghost_cells == self.spec_has_ghost_cells(),
    {
        self.has_ghost_cells
    }

    /// Whether the boundary computes the convective flux itself.
    pub fn convective_flux_computed_in_boundary(&self) -> (in_boundary: bool)
        ensures
            in_boundary == self.spec_convective_flux_computed_in_boundary(),
    {
        self.convective_flux_computed_in_boundary
    }

    /// The name of the boundary.
    pub fn tag(&self) -> (tag: &[u8])
        ensures
            tag@ == self.spec_tag(),
    {
        self.tag.as_slice()
    }

    /// The numbers of the interfaces on the boundary.
    pub fn interfaces(&self) -> (interfaces: &[usize])
        ensures
            interfaces@ == self.spec_interfaces(),
    {
        self.interfaces.as_slice()
    }
}

} // verus!
