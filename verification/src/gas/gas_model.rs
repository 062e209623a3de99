use crate::grid::su2::bytes_equal;
use vstd::prelude::*;
use vstd::string::*;

verus! {

/// The models of a gas.
#[derive(Debug, PartialEq, Eq, Clone, Copy, Structural)]
pub enum GasModels {
    /// A gas of constant specific heats that obeys the ideal gas law.
    IdealGas,
}

/// A name that no gas model has.
#[derive(Debug, PartialEq, Eq, Clone, Copy, Structural)]
pub struct InvalidGasModel;

/// The bytes `ideal_gas`.
pub open spec fn ideal_gas_name() -> Seq<u8> {
    seq![105u8, 100u8, 101u8, 97u8, 108u8, 95u8, 103u8, 97u8, 115u8]
}

impl GasModels {
    /// The name of the model in a configuration, in contracts.
    pub open spec fn spec_name(self) -> Seq<u8> {
        match self {
            GasModels::IdealGas => ideal_gas_name(),
        }
    }

    /// The model with the given name: `ideal_gas` is the ideal gas, and no
    /// other name is a model.
    pub fn from_str(s: &str) -> (model: Result<GasModels, InvalidGasModel>)
        ensures
            s.spec_bytes() == ideal_gas_name() <==> model == Ok::<GasModels, InvalidGasModel>(
                GasModels::IdealGas,
            ),
            s.spec_bytes() != ideal_gas_name() <==> model == Err::<GasModels, InvalidGasModel>(
                InvalidGasModel,
            ),
    {
        let name: Vec<u8> = vec![105u8, 100u8, 101u8, 97u8, 108u8, 95u8, 103u8, 97u8, 115u8];
        proof {
            assert(name@ =~= ideal_gas_name());
        }
        if bytes_equal(s.as_bytes(), name.as_slice()) {
            Ok(GasModels::IdealGas)
        } else {
            Err(InvalidGasModel)
        }
    }

    /// The name of the model in a configuration.
    pub fn name(&self) -> (name: Vec<u8>)
        ensures
            name@ == self.spec_name(),
    {
        match self {
            GasModels::IdealGas => {
                let name: Vec<u8> = vec![
                    105u8,
                    100u8,
                    101u8,
                    97u8,
                    108u8,
                    95u8,
                    103u8,
                    97u8,
                    115u8,
                ];
                proof {
                    assert(name@ =~= ideal_gas_name());
                }
                name
            },
        }
    }
}

impl Default for GasModels {
    fn default() -> (model: GasModels)
        ensures
            model == GasModels::IdealGas,
    {
        GasModels::IdealGas
    }
}

} // verus!
