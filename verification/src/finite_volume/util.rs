use crate::grid::cell::GridCell;
use crate::grid::interface::GridInterface;
use crate::grid::Cell;
use crate::grid::Interface;
use vstd::prelude::*;

verus! {

/// The numbers of the parts that make up other parts, group by group: the
/// vertices of every interface, or the interfaces of every cell. The groups
/// stand one after the other in one list, and a second list says where each
/// group starts.
#[derive(Debug, PartialEq, Eq)]
pub struct Ids {
    ids: Vec<usize>,
    offsets: Vec<usize>,
}

impl Ids {
    /// The groups, in contracts.
    pub closed spec fn spec_groups(&self) -> Seq<Seq<usize>> {
        Seq::new(
            (self.offsets@.len() - 1) as nat,
            |i: int| self.ids@.subrange(self.offsets@[i] as int, self.offsets@[i + 1] as int),
        )
    }

    /// Whether the starts of the groups are sound: there is one more than
    /// there are groups, they rise from 0 to the number of numbers.
    pub closed spec fn valid(&self) -> bool {
        &&& self.offsets@.len() >= 1
        &&& self.offsets@[0] == 0
        &&& self.offsets@[self.offsets@.len() - 1] == self.ids@.len()
        &&& forall|i: int|
            0 <= i < self.offsets@.len() - 1 ==> #[trigger] self.offsets@[i] <= self.offsets@[i + 1]
                <= self.ids@.len()
    }

    /// No groups.
    pub fn new() -> (ids: Ids)
        ensures
            ids.valid(),
            ids.spec_groups() == Seq::<Seq<usize>>::empty(),
    {
        let mut offsets: Vec<usize> = Vec::new();
        offsets.push(0);
        let ids = Ids { ids: Vec::new(), offsets };
        proof {
            assert(ids.spec_groups() =~= Seq::<Seq<usize>>::empty());
        }
        ids
    }

    /// Adds a group after the groups that are there.
    pub fn push_group(&mut self, group: &[usize])
        requires
            old(self).valid(),
        ensures
            final(self).valid(),
            final(self).spec_groups() == old(self).spec_groups().push(group@),
    {
        let n = group.len();
        let ghost before = self.spec_groups();
        let ghost old_ids = self.ids@;
        let ghost old_offsets = self.offsets@;
        let mut i: usize = 0;
        while i < n
            invariant
                i <= n,
                n == group@.len(),
                self.offsets@ == old_offsets,
                self.ids@ == old_ids + group@.take(i as int),
            decreases n - i,
        {
            self.ids.push(group[i]);
            proof {
                assert(group@.take(i + 1) =~= group@.take(i as int).push(group@[i as int]));
            }
            i = i + 1;
        }
        self.offsets.push(self.ids.len());
        proof {
            assert(group@.take(n as int) =~= group@);
            let after = self.spec_groups();
            assert(after.len() == before.len() + 1);
            assert forall|g: int| 0 <= g < after.len() implies after[g] == before.push(group@)[g] by {
                if g < before.len() {
                    assert(self.offsets@[g] == old_offsets[g]);
                    assert(self.offsets@[g + 1] == old_offsets[g + 1]);
                    assert(self.ids@.subrange(
                        old_offsets[g] as int,
                        old_offsets[g + 1] as int,
                    ) =~= old_ids.subrange(old_offsets[g] as int, old_offsets[g + 1] as int));
                } else {
                    assert(self.ids@.subrange(old_ids.len() as int, self.ids@.len() as int)
                        =~= group@);
                }
            }
            assert(after =~= before.push(group@));
        }
    }

    /// The number of groups.
    pub fn len(&self) -> (len: usize)
        requires
            self.valid(),
        ensures
            len == self.spec_groups().len(),
    {
        self.offsets.len() - 1
    }

    /// The numbers of the group `index`.
    pub fn get(&self, index: usize) -> (group: &[usize])
        requires
            self.valid(),
            index < self.spec_groups().len(),
        ensures
            group@ == self.spec_groups()[index as int],
    {
        let groups = self.offsets.len() - 1;
        let start = self.offsets[index];
        let end = self.offsets[index + 1];
        vstd::slice::slice_subrange(self.ids.as_slice(), start, end)
    }

    /// The numbers of the vertices of every interface.
    pub fn from_interfaces(interfaces: &Vec<GridInterface>) -> (ids: Ids)
        ensures
            ids.valid(),
            ids.spec_groups().len() == interfaces@.len(),
            forall|i: int|
                0 <= i < interfaces@.len() ==> #[trigger] ids.spec_groups()[i]
                    == interfaces@[i].spec_vertex_ids(),
    {
        let n = interfaces.len();
        let mut ids = Ids::new();
        let mut i: usize = 0;
        while i < n
            invariant
                i <= n,
                n == interfaces@.len(),
                ids.valid(),
                ids.spec_groups().len() == i,
                forall|j: int|
                    0 <= j < i ==> #[trigger] ids.spec_groups()[j]
                        == interfaces@[j].spec_vertex_ids(),
            decreases n - i,
        {
            ids.push_group(interfaces[i].vertex_ids().as_slice());
            i = i + 1;
        }
        ids
    }

    /// The numbers of the vertices of every cell, and the numbers of the
    /// interfaces of every cell.
    pub fn from_cells(cells: &Vec<GridCell>) -> (ids: (Ids, Ids))
        ensures
            ids.0.valid(),
            ids.1.valid(),
            ids.0.spec_groups().len() == cells@.len(),
            ids.1.spec_groups().len() == cells@.len(),
            forall|i: int|
                0 <= i < cells@.len() ==> #[trigger] ids.0.spec_groups()[i]
                    == cells@[i].spec_vertex_ids(),
            forall|i: int|
                0 <= i < cells@.len() ==> #[trigger] ids.1.spec_groups()[i]
                    == cells@[i].spec_interface_ids(),
    {
        let n = cells.len();
        let mut vertex_ids = Ids::new();
        let mut interface_ids = Ids::new();
        let mut i: usize = 0;
        while i < n
            invariant
                i <= n,
                n == cells@.len(),
                vertex_ids.valid(),
                interface_ids.valid(),
                vertex_ids.spec_groups().len() == i,
                interface_ids.spec_groups().len() == i,
                forall|j: int|
                    0 <= j < i ==> #[trigger] vertex_ids.spec_groups()[j]
                        == cells@[j].spec_vertex_ids(),
                forall|j: int|
                    0 <= j < i ==> #[trigger] interface_ids.spec_groups()[j]
                        == cells@[j].spec_interface_ids(),
            decreases n - i,
        {
            vertex_ids.push_group(cells[i].vertex_ids().as_slice());
            let faces = cells[i].interface_ids();
            interface_ids.push_group(faces.as_slice());
            i = i + 1;
        }
        (vertex_ids, interface_ids)
    }
}

} // verus!
