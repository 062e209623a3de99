use aeolus::config::logging::Logger;
use aeolus::config::logging::UserLogger;
use aeolus::config::settings::base_folder;
use aeolus::config::settings::parent_directory;
use aeolus::config::settings::FileStructure;
use aeolus::config::settings::Verbosity;
use aeolus::gas::gas_model::GasModels;
use aeolus::gas::gas_model::InvalidGasModel;

fn structure() -> FileStructure {
    FileStructure::new(
        b"config/config.toml".to_vec(),
        b"config/gas_model.toml".to_vec(),
        b"config/solver.toml".to_vec(),
        b"config/disc/discretisation.toml".to_vec(),
        b"grid".to_vec(),
        b"fluid/".to_vec(),
        b"units.toml".to_vec(),
    )
}

#[test]
fn file_structure_gives_its_paths() {
    let files = structure();
    assert_eq!(files.config(), &b"config/config.toml".to_vec());
    assert_eq!(files.gas_model(), &b"config/gas_model.toml".to_vec());
    assert_eq!(files.solver(), &b"config/solver.toml".to_vec());
    assert_eq!(files.discretisation(), &b"config/disc/discretisation.toml".to_vec());
    assert_eq!(files.grid(), &b"grid".to_vec());
    assert_eq!(files.fluid(), &b"fluid/".to_vec());
    assert_eq!(files.units(), &b"units.toml".to_vec());
}

#[test]
fn directories_to_create_are_the_parents_of_the_paths() {
    let files = structure();
    assert_eq!(
        files.create_directories(),
        vec![
            b"config".to_vec(),
            b"config/disc".to_vec(),
            b"".to_vec(),
            b"fluid".to_vec(),
            b"config".to_vec(),
        ]
    );
    assert_eq!(parent_directory(b"a/b/c"), b"a/b".to_vec());
    assert_eq!(parent_directory(b"/c"), b"".to_vec());
    assert_eq!(parent_directory(b"c"), b"".to_vec());
}

#[test]
fn folders_to_clean_are_the_first_of_the_paths() {
    let files = structure();
    assert_eq!(
        files.clean(),
        vec![
            b"config".to_vec(),
            b"config".to_vec(),
            b"grid".to_vec(),
            b"fluid".to_vec(),
            b"config".to_vec(),
        ]
    );
    assert_eq!(base_folder(b"a/b/c"), b"a".to_vec());
    assert_eq!(base_folder(b"/c"), b"".to_vec());
    assert_eq!(base_folder(b""), b"".to_vec());
}

#[test]
fn logger_shows_what_its_verbosity_admits() {
    let quiet = UserLogger::with_verbosity(&Verbosity::Error);
    assert_eq!(quiet.error(b"no grid"), Some(b"Error: no grid".to_vec()));
    assert_eq!(quiet.warning(b"slow"), None);
    assert_eq!(quiet.debug(b"step"), None);

    let careful = UserLogger::with_verbosity(&Verbosity::Warning);
    assert_eq!(careful.error(b"no grid"), Some(b"Error: no grid".to_vec()));
    assert_eq!(careful.warning(b"slow"), Some(b"Warning: slow".to_vec()));
    assert_eq!(careful.debug(b"step"), None);

    let loud = UserLogger::with_verbosity(&Verbosity::Debug);
    assert_eq!(loud.error(b""), Some(b"Error: ".to_vec()));
    assert_eq!(loud.warning(b"slow"), Some(b"Warning: slow".to_vec()));
    assert_eq!(loud.debug(b"step"), Some(b"step".to_vec()));
}

#[test]
fn verbosity_has_a_name() {
    assert_eq!(Verbosity::Error.name(), b"Error".to_vec());
    assert_eq!(Verbosity::Warning.name(), b"Warning".to_vec());
    assert_eq!(Verbosity::Debug.name(), b"Debug".to_vec());
}

#[test]
fn gas_models_go_by_their_names() {
    assert_eq!(GasModels::from_str("ideal_gas"), Ok(GasModels::IdealGas));
    assert_eq!(GasModels::from_str("ideal gas"), Err(InvalidGasModel));
    assert_eq!(GasModels::from_str(""), Err(InvalidGasModel));
    assert_eq!(GasModels::from_str("IdealGas"), Err(InvalidGasModel));
    assert_eq!(GasModels::IdealGas.name(), b"ideal_gas".to_vec());
    assert_eq!(GasModels::default(), GasModels::IdealGas);
}
