use crate::common::text::after_last;
use crate::common::text::first_at;
use crate::common::text::text_after_last;
use crate::common::text::copy_range;
use vstd::prelude::*;

verus! {

/// A configuration that names something the program does not know.
#[derive(Debug, PartialEq, Eq, Clone, Copy, Structural)]
pub struct InvalidConfig;

/// How much the program tells its user.
#[derive(Debug, PartialEq, Eq, Clone, Copy, Structural)]
pub enum Verbosity {
    /// Errors only.
    Error,
    /// Errors and warnings.
    Warning,
    /// Everything.
    Debug,
}

impl Verbosity {
    /// The name of the level, in contracts.
    pub open spec fn spec_name(self) -> Seq<u8> {
        match self {
            Verbosity::Error => seq![69u8, 114u8, 114u8, 111u8, 114u8],
            Verbosity::Warning => seq![87u8, 97u8, 114u8, 110u8, 105u8, 110u8, 103u8],
            Verbosity::Debug => seq![68u8, 101u8, 98u8, 117u8, 103u8],
        }
    }

    /// The name of the level: `Error`, `Warning` or `Debug`.
    pub fn name(&self) -> (name: Vec<u8>)
        ensures
            name@ == self.spec_name(),
    {
        let name: Vec<u8> = match self {
            Verbosity::Error => vec![69u8, 114u8, 114u8, 111u8, 114u8],
            Verbosity::Warning => vec![87u8, 97u8, 114u8, 110u8, 105u8, 110u8, 103u8],
            Verbosity::Debug => vec![68u8, 101u8, 98u8, 117u8, 103u8],
        };
        proof {
            assert(name@ =~= self.spec_name());
        }
        name
    }
}

/// The directory that a path lies in: what stands before its last `/`, and
/// nothing where it has none.
pub open spec fn spec_parent(path: Seq<u8>) -> Seq<u8> {
    let name = after_last(path, 47u8);
    if name.len() < path.len() {
        path.take(path.len() - name.len() - 1)
    } else {
        Seq::empty()
    }
}

/// The first folder of a path: what stands before its first `/`, and the
/// whole path where it has none.
pub open spec fn spec_base_folder(path: Seq<u8>) -> Seq<u8> {
    path.take(first_at(path, 47u8, 0))
}

/// The directory that a path lies in.
pub fn parent_directory(path: &[u8]) -> (parent: Vec<u8>)
    ensures
        parent@ == spec_parent(path@),
{
    let name = text_after_last(path, 47u8);
    if name.len() < path.len() {
        let end = path.len() - name.len() - 1;
        proof {
            assert(path@.take(end as int) =~= path@.subrange(0, end as int));
        }
        copy_range(path, 0, end)
    } else {
        Vec::new()
    }
}

/// The first folder of a path.
pub fn base_folder(path: &[u8]) -> (base: Vec<u8>)
    ensures
        base@ == spec_base_folder(path@),
{
    let n = path.len();
    let mut at: usize = 0;
    while at < n && path[at] != 47u8
        invariant
            at <= n,
            n == path@.len(),
            first_at(path@, 47u8, 0) == first_at(path@, 47u8, at as int),
        decreases n - at,
    {
        at = at + 1;
    }
    proof {
        assert(path@.take(at as int) =~= path@.subrange(0, at as int));
    }
    copy_range(path, 0, at)
}

/// Where the program looks for the parts of a simulation and writes them.
#[derive(Debug, PartialEq, Eq)]
pub struct FileStructure {
    config: Vec<u8>,
    gas_model: Vec<u8>,
    solver: Vec<u8>,
    discretisation: Vec<u8>,
    grid: Vec<u8>,
    fluid: Vec<u8>,
    units: Vec<u8>,
}

impl FileStructure {
    /// The path of the configuration, in contracts.
    pub closed spec fn spec_config(&self) -> Seq<u8> {
        self.config@
    }

    /// The path of the gas model, in contracts.
    pub closed spec fn spec_gas_model(&self) -> Seq<u8> {
        self.gas_model@
    }

    /// The path of the solver settings, in contracts.
    pub closed spec fn spec_solver(&self) -> Seq<u8> {
        self.solver@
    }

    /// The path of the discretisation settings, in contracts.
    pub closed spec fn spec_discretisation(&self) -> Seq<u8> {
        self.discretisation@
    }

    /// The path of the grids, in contracts.
    pub closed spec fn spec_grid(&self) -> Seq<u8> {
        self.grid@
    }

    /// The path of the flow solutions, in contracts.
    pub closed spec fn spec_fluid(&self) -> Seq<u8> {
        self.fluid@
    }

    /// The path of the units, in contracts.
    pub closed spec fn spec_units(&self) -> Seq<u8> {
        self.units@
    }

    /// The paths whose directories the program makes and removes, in the
    /// order in which it goes through them.
    pub open spec fn spec_output_paths(&self) -> Seq<Seq<u8>> {
        seq![
            self.spec_solver(),
            self.spec_discretisation(),
            self.spec_grid(),
            self.spec_fluid(),
            self.spec_gas_model(),
        ]
    }

    /// Creates the structure from the paths of its parts.
    pub fn new(
        config: Vec<u8>,
        gas_model: Vec<u8>,
        solver: Vec<u8>,
        discretisation: Vec<u8>,
        grid: Vec<u8>,
        fluid: Vec<u8>,
        units: Vec<u8>,
    ) -> (structure: FileStructure)
        ensures
            structure.spec_config() == config@,
            structure.spec_gas_model() == gas_model@,
            structure.spec_solver() == solver@,
            structure.spec_discretisation() == discretisation@,
            structure.spec_grid() == grid@,
            structure.spec_fluid() == fluid@,
            structure.spec_units() == units@,
    {
        FileStructure { config, gas_model, solver, discretisation, grid, fluid, units }
    }

    /// The directories that have to be there before anything is written: for
    /// the solver, the discretisation, the grid, the fluid and the gas model,
    /// in this order, the directory that their path lies in.
    pub fn create_directories(&self) -> (directories: Vec<Vec<u8>>)
        ensures
            directories@.len() == 5,
            forall|i: int|
                0 <= i < 5 ==> (#[trigger] directories@[i])@ == spec_parent(
                    self.spec_output_paths()[i],
                ),
    {
        let mut directories: Vec<Vec<u8>> = Vec::with_capacity(5);
        directories.push(parent_directory(self.solver.as_slice()));
        directories.push(parent_directory(self.discretisation.as_slice()));
        directories.push(parent_directory(self.grid.as_slice()));
        directories.push(parent_directory(self.fluid.as_slice()));
        directories.push(parent_directory(self.gas_model.as_slice()));
        directories
    }

    /// The folders to remove so that nothing of a simulation is left: for the
    /// solver, the discretisation, the grid, the fluid and the gas model, in
    /// this order, the first folder of their path.
    pub fn clean(&self) -> (folders: Vec<Vec<u8>>)
        ensures
            folders@.len() == 5,
            forall|i: int|
                0 <= i < 5 ==> (#[trigger] folders@[i])@ == spec_base_folder(
                    self.spec_output_paths()[i],
                ),
    {
        let mut folders: Vec<Vec<u8>> = Vec::with_capacity(5);
        folders.push(base_folder(self.solver.as_slice()));
        folders.push(base_folder(self.discretisation.as_slice()));
        folders.push(base_folder(self.grid.as_slice()));
        folders.push(base_folder(self.fluid.as_slice()));
        folders.push(base_folder(self.gas_model.as_slice()));
        folders
    }

    /// The path of the solver settings.
    pub fn solver(&self) -> (path: &Vec<u8>)
        ensures
            path@ == self.spec_solver(),
    {
        &self.solver
    }

    /// The path of the discretisation settings.
    pub fn discretisation(&self) -> (path: &Vec<u8>)
        ensures
            path@ == self.spec_discretisation(),
    {
        &self.discretisation
    }

    /// The path of the configuration.
    pub fn config(&self) -> (path: &Vec<u8>)
        ensures
            path@ == self.spec_config(),
    {
        &self.config
    }

    /// The path of the grids.
    pub fn grid(&self) -> (path: &Vec<u8>)
        ensures
            path@ == self.spec_grid(),
    {
        &self.grid
    }

    /// The path of the flow solutions.
    pub fn fluid(&self) -> (path: &Vec<u8>)
        ensures
            path@ == self.spec_fluid(),
    {
        &self.fluid
    }

    /// The path of the gas model.
    pub fn gas_model(&self) -> (path: &Vec<u8>)
        ensures
            path@ == self.spec_gas_model(),
    {
        &self.gas_model
    }

    /// The path of the units.
    pub fn units(&self) -> (path: &Vec<u8>)
        ensures
            path@ == self.spec_units(),
    {
        &self.units
    }
}

} // verus!
