use crate::common::vector3::ArrayVec3;
use crate::common::vector3::Vector3;
use crate::finite_volume::util::Ids;
use crate::grid::geom_calc::MeanPoint;
use crate::grid::interface::GridInterface;
use crate::grid::Interface;
use vstd::prelude::*;

verus! {

/// The interfaces of a block, each property in a list of its own, in the
/// order of the numbers of the interfaces.
#[derive(Debug)]
pub struct Interfaces {
    vertex_ids: Ids,
    area_squared: Vec<i128>,
    norm: ArrayVec3,
    t1: ArrayVec3,
    t2: ArrayVec3,
    centre: Vec<MeanPoint>,
    length: usize,
}

impl Interfaces {
    /// Whether every list holds one entry for each interface.
    pub closed spec fn valid(&self) -> bool {
        &&& self.vertex_ids.valid()
        &&& self.norm.valid()
        &&& self.t1.valid()
        &&& self.t2.valid()
        &&& self.vertex_ids.spec_groups().len() == self.length
        &&& self.area_squared@.len() == self.length
        &&& self.norm.spec_vectors().len() == self.length
        &&& self.t1.spec_vectors().len() == self.length
        &&& self.t2.spec_vectors().len() == self.length
        &&& self.centre@.len() == self.length
    }

    /// The number of interfaces, in contracts.
    pub closed spec fn spec_len(&self) -> usize {
        self.length
    }

    /// The vertices of every interface, in contracts.
    pub closed spec fn spec_vertices(&self) -> Seq<Seq<usize>> {
        self.vertex_ids.spec_groups()
    }

    /// The squares of the areas, in contracts.
    pub closed spec fn spec_area_squared(&self) -> Seq<i128> {
        self.area_squared@
    }

    /// The normals, in contracts.
    pub closed spec fn spec_norm(&self) -> Seq<Vector3> {
        self.norm.spec_vectors()
    }

    /// The first tangents, in contracts.
    pub closed spec fn spec_t1(&self) -> Seq<Vector3> {
        self.t1.spec_vectors()
    }

    /// The second tangents, in contracts.
    pub closed spec fn spec_t2(&self) -> Seq<Vector3> {
        self.t2.spec_vectors()
    }

    /// The centres, in contracts.
    pub closed spec fn spec_centre(&self) -> Seq<MeanPoint> {
        self.centre@
    }

    /// In sound lists every list holds one entry for each interface.
    pub proof fn lemma_lengths(&self)
        requires
            self.valid(),
        ensures
            self.spec_vertices().len() == self.spec_len(),
            self.spec_area_squared().len() == self.spec_len(),
            self.spec_norm().len() == self.spec_len(),
            self.spec_t1().len() == self.spec_len(),
            self.spec_t2().len() == self.spec_len(),
            self.spec_centre().len() == self.spec_len(),
    {
    }

    /// Whether the lists hold what the given interfaces have, each at the
    /// place of the interface.
    pub open spec fn holds_interfaces(&self, interfaces: Seq<GridInterface>) -> bool {
        &&& self.spec_len() == interfaces.len()
        &&& self.spec_vertices().len() == interfaces.len()
        &&& self.spec_area_squared().len() == interfaces.len()
        &&& self.spec_norm().len() == interfaces.len()
        &&& self.spec_t1().len() == interfaces.len()
        &&& self.spec_t2().len() == interfaces.len()
        &&& self.spec_centre().len() == interfaces.len()
        &&& forall|i: int|
            0 <= i < interfaces.len() ==> {
                let interface = #[trigger] interfaces[i];
                &&& self.spec_vertices()[i] == interface.spec_vertex_ids()
                &&& self.spec_area_squared()[i] == interface.spec_area_squared()
                &&& self.spec_norm()[i] == interface.spec_normal()
                &&& self.spec_t1()[i] == interface.spec_tangent()
                &&& self.spec_t2()[i] == (Vector3 { x: 0, y: 0, z: 1 })
                &&& self.spec_centre()[i] == interface.spec_centre()
            }
    }

    /// The lists of what the given interfaces have.
    pub fn from_grid_interfaces(interfaces: &Vec<GridInterface>) -> (lists: Interfaces)
        ensures
            lists.valid(),
            lists.holds_interfaces(interfaces@),
    {
        let n = interfaces.len();
        let vertex_ids = Ids::from_interfaces(interfaces);
        let mut area_squared: Vec<i128> = Vec::with_capacity(n);
        let mut norm: Vec<Vector3> = Vec::with_capacity(n);
        let mut t1: Vec<Vector3> = Vec::with_capacity(n);
        let mut t2: Vec<Vector3> = Vec::with_capacity(n);
        let mut centre: Vec<MeanPoint> = Vec::with_capacity(n);
        let mut i: usize = 0;
        while i < n
            invariant
                i <= n,
                n == interfaces@.len(),
                area_squared@.len() == i,
                norm@.len() == i,
                t1@.len() == i,
                t2@.len() == i,
                centre@.len() == i,
                forall|j: int|
                    0 <= j < i ==> {
                        let interface = #[trigger] interfaces@[j];
                        &&& area_squared@[j] == interface.spec_area_squared()
                        &&& norm@[j] == interface.spec_normal()
                        &&& t1@[j] == interface.spec_tangent()
                        &&& t2@[j] == (Vector3 { x: 0, y: 0, z: 1 })
                        &&& centre@[j] == interface.spec_centre()
                    },
            decreases n - i,
        {
            let interface = &interfaces[i];
            area_squared.push(interface.area_squared());
            norm.push(interface.normal());
            t1.push(interface.tangent1());
            t2.push(interface.tangent2());
            centre.push(*interface.centre());
            i = i + 1;
        }
        let lists = Interfaces {
            vertex_ids,
            area_squared,
            norm: ArrayVec3::from_vector3s(norm.as_slice()),
            t1: ArrayVec3::from_vector3s(t1.as_slice()),
            t2: ArrayVec3::from_vector3s(t2.as_slice()),
            centre,
            length: n,
        };
        lists
    }

    /// The numbers of the vertices of every interface.
    pub fn vertices(&self) -> (vertices: &Ids)
        ensures
            vertices.spec_groups() == self.spec_vertices(),
            self.valid() ==> vertices.valid(),
    {
        &self.vertex_ids
    }

    /// The squares of the areas of the interfaces.
    pub fn area_squared(&self) -> (areas: &Vec<i128>)
        ensures
            areas@ == self.spec_area_squared(),
    {
        &self.area_squared
    }

    /// The normals of the interfaces, each as long as its interface.
    pub fn norm(&self) -> (norm: &ArrayVec3)
        ensures
            norm.spec_vectors() == self.spec_norm(),
            self.valid() ==> norm.valid(),
    {
        &self.norm
    }

    /// The first tangents of the interfaces: from the first vertex to the
    /// second.
    pub fn t1(&self) -> (t1: &ArrayVec3)
        ensures
            t1.spec_vectors() == self.spec_t1(),
            self.valid() ==> t1.valid(),
    {
        &self.t1
    }

    /// The second tangents of the interfaces: out of the plane.
    pub fn t2(&self) -> (t2: &ArrayVec3)
        ensures
            t2.spec_vectors() == self.spec_t2(),
            self.valid() ==> t2.valid(),
    {
        &self.t2
    }

    /// The centres of the interfaces.
    pub fn centre(&self) -> (centre: &Vec<MeanPoint>)
        ensures
            centre@ == self.spec_centre(),
    {
        &self.centre
    }

    /// The number of interfaces.
    pub fn len(&self) -> (len: usize)
        ensures
            len == self.spec_len(),
    {
        self.length
    }
}

} // verus!
