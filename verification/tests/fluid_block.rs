use aeolus::common::vector3::Vector3;
use aeolus::finite_volume::boundary_conditions::BoundaryCondition;
use aeolus::finite_volume::cells::Cells;
use aeolus::finite_volume::fluid_block::FluidBlock;
use aeolus::finite_volume::fluid_block_io::CellIO;
use aeolus::finite_volume::fluid_block_io::FluidBlockIO;
use aeolus::finite_volume::fluid_block_io::InterfaceIO;
use aeolus::finite_volume::fluid_block_io::VertexIO;
use aeolus::finite_volume::interface::Interfaces;
use aeolus::finite_volume::util::Ids;
use aeolus::grid::block::BlockCollection;
use aeolus::grid::block::GridBlock;
use aeolus::grid::interface::Direction;
use aeolus::grid::su2::parse_su2;
use aeolus::grid::Block;
use aeolus::grid::Cell;
use aeolus::grid::CellShape;
use aeolus::grid::Id;
use aeolus::grid::Interface;
use aeolus::grid::InterfaceShape;
use aeolus::grid::Vertex;

fn square_su2() -> Vec<u8> {
    let mut text = String::new();
    text.push_str("NDIME= 2\n");
    text.push_str("NPOIN= 16\n");
    for j in 0..4 {
        for i in 0..4 {
            text.push_str(&format!("{}.0 {}.0\n", i, j));
        }
    }
    text.push_str("NELEM= 9\n");
    for j in 0..3 {
        for i in 0..3 {
            let v0 = j * 4 + i;
            text.push_str(&format!("9 {} {} {} {}\n", v0, v0 + 1, v0 + 5, v0 + 4));
        }
    }
    text.push_str("NMARK= 1\n");
    text.push_str("MARKER_TAG=inflow\nMARKER_ELEMS= 3\n3 0 4\n3 4 8\n3 8 12\n");
    text.into_bytes()
}

fn read_block() -> BlockCollection {
    let mut block_collection = BlockCollection::new();
    block_collection.add_block(b"../grid/tests/data/square.su2", &square_su2()).unwrap();
    block_collection
}

#[test]
fn test_interface_ids() {
    let block_collection = read_block();
    let block = block_collection.get_block(0);

    let interface_ids = Ids::from_interfaces(block.interfaces());
    assert_eq!(interface_ids.get(0), [0, 1]);
    assert_eq!(interface_ids.get(1), [1, 5]);
    assert_eq!(interface_ids.get(2), [5, 4]);
    assert_eq!(interface_ids.get(3), [4, 0]);
    assert_eq!(interface_ids.get(4), [1, 2]);
    assert_eq!(interface_ids.get(5), [2, 6]);
    assert_eq!(interface_ids.get(12), [8, 4]);
    assert_eq!(interface_ids.get(23), [15, 14]);
}

#[test]
fn test_cell_ids() {
    let block_collection = read_block();
    let block = block_collection.get_block(0);

    let (vertex_ids, interface_ids) = Ids::from_cells(block.cells());
    assert_eq!(vertex_ids.get(0), [0, 1, 5, 4]);
    assert_eq!(vertex_ids.get(5), [6, 7, 11, 10]);

    assert_eq!(interface_ids.get(0), [0, 1, 2, 3]);
    assert_eq!(interface_ids.get(5), [9, 15, 16, 13]);
}

#[test]
fn groups_of_different_length_are_kept_apart() {
    let mut ids = Ids::new();
    assert_eq!(ids.len(), 0);
    ids.push_group(&[3, 4, 5]);
    ids.push_group(&[]);
    ids.push_group(&[9, 8, 7, 6]);
    assert_eq!(ids.len(), 3);
    assert_eq!(ids.get(0), [3, 4, 5]);
    assert_eq!(ids.get(1), [0usize; 0]);
    assert_eq!(ids.get(2), [9, 8, 7, 6]);
}

#[test]
fn mixed_cells_keep_their_own_vertices() {
    let text = b"NDIME= 2\nNPOIN= 5\n0 0\n1 0\n1 1\n0 1\n2 0.5\nNELEM= 2\n9 0 1 2 3\n5 1 4 2\n";
    let mut blocks = BlockCollection::new();
    blocks.add_block(b"mixed.su2", text).unwrap();
    let block = blocks.get_block(0);
    let (vertex_ids, interface_ids) = Ids::from_cells(block.cells());
    assert_eq!(vertex_ids.len(), 2);
    assert_eq!(vertex_ids.get(0), [0, 1, 2, 3]);
    assert_eq!(vertex_ids.get(1), [1, 4, 2]);
    assert_eq!(interface_ids.get(0), [0, 1, 2, 3]);
    assert_eq!(interface_ids.get(1), [4, 5, 1]);

    let cells = Cells::from_grid_cells(block.cells());
    assert_eq!(cells.len(), 2);
    assert_eq!(cells.shape(), [CellShape::Quadrilateral, CellShape::Triangle]);
    assert_eq!(cells.vertices().get(1), [1, 4, 2]);
    assert_eq!(cells.interfaces().get(1), [4, 5, 1]);
    assert_eq!(
        cells.volume_doubled(),
        [2_000_000_000_000_000_000, 1_000_000_000_000_000_000]
    );
    assert_eq!(cells.centre()[1].count(), 3);
    assert_eq!(
        cells.interface_directions(),
        [
            Direction::Outwards,
            Direction::Outwards,
            Direction::Outwards,
            Direction::Outwards,
            Direction::Outwards,
            Direction::Outwards,
            Direction::Inwards,
        ]
    );
}

#[test]
fn interfaces_are_kept_property_by_property() {
    let block_collection = read_block();
    let block = block_collection.get_block(0);
    let interfaces = Interfaces::from_grid_interfaces(block.interfaces());
    assert_eq!(interfaces.len(), 24);
    assert_eq!(interfaces.vertices().get(12), [8, 4]);
    assert_eq!(interfaces.area_squared()[12], 1_000_000_000_000_000_000);
    assert_eq!(interfaces.norm().get(0), Vector3 { x: 0, y: -1_000_000_000, z: 0 });
    assert_eq!(interfaces.t1().get(0), Vector3 { x: 1_000_000_000, y: 0, z: 0 });
    assert_eq!(interfaces.t2().get(0), Vector3 { x: 0, y: 0, z: 1 });
    assert_eq!(interfaces.centre()[0].sum(), Vector3 { x: 1_000_000_000, y: 0, z: 0 });
    assert_eq!(interfaces.norm().len(), 24);
}

#[test]
fn fluid_block_holds_what_the_grid_block_has() {
    let block_collection = read_block();
    let block = block_collection.get_block(0);
    let conditions: Vec<BoundaryCondition> =
        block.boundaries().iter().map(|b| BoundaryCondition::new(b, false, true)).collect();
    let fluid = FluidBlock::from_grid_block(block, conditions);
    assert_eq!(fluid.id(), 0);
    assert_eq!(fluid.dimensions(), 2);
    assert_eq!(fluid.vertices().len(), 16);
    assert_eq!(fluid.vertices().get(5), Vector3 { x: 1_000_000_000, y: 1_000_000_000, z: 0 });
    assert_eq!(fluid.interfaces().len(), 24);
    assert_eq!(fluid.cells().len(), 9);
    assert_eq!(fluid.boundaries().len(), 1);
    assert_eq!(fluid.boundaries()[0].tag(), b"inflow");
    assert_eq!(fluid.boundaries()[0].interfaces(), [3, 12, 19]);
    assert!(fluid.boundaries()[0].has_ghost_cells());
    assert!(!fluid.boundaries()[0].convective_flux_computed_in_boundary());
}

#[test]
fn fluid_block_is_written_from_its_copy() {
    let mut block_collection = read_block();
    block_collection.add_block(b"second.su2", &square_su2()).unwrap();
    let block = block_collection.get_block(1);
    let fluid = FluidBlock::from_grid_block(block, Vec::new());
    let copy = FluidBlockIO::new(&fluid);
    assert_eq!(copy.id(), 1);
    assert_eq!(copy.vertices().len(), 16);
    assert_eq!(copy.interfaces()[12].vertex_ids(), &vec![8, 4]);
    assert_eq!(copy.interfaces()[12].shape(), &InterfaceShape::Line);
    assert_eq!(copy.cells()[5].interface_ids(), vec![9, 15, 16, 13]);
    assert_eq!(copy.cells()[5].shape(), &CellShape::Quadrilateral);
    assert_eq!(copy.boundaries().len(), 0);
    let file = copy.write_fluid_block().unwrap();
    assert_eq!(file.name, b"blk0001.grid".to_vec());
    let mesh = parse_su2(&file.text).unwrap();
    assert_eq!(mesh.markers.len(), 0);
    let again = GridBlock::from_mesh(&mesh, 1).unwrap();
    assert_eq!(again.vertices(), block.vertices());
    assert_eq!(again.cells(), block.cells());
}

#[test]
fn copies_for_writing_keep_what_they_are_given() {
    let vertex = VertexIO::new(1, 2, 3, 4);
    assert_eq!(vertex.pos(), &Vector3 { x: 1, y: 2, z: 3 });
    assert_eq!(vertex.id(), 4);
    let interface = InterfaceIO::new(7, vec![2, 1]);
    assert_eq!(interface.id(), 7);
    assert_eq!(interface.vertex_ids(), &vec![2, 1]);
    let cell = CellIO::new(3, vec![0, 1, 2], vec![5, 6, 7], CellShape::Triangle);
    assert_eq!(cell.id(), 3);
    assert_eq!(cell.vertex_ids(), &vec![0, 1, 2]);
    assert_eq!(cell.interface_ids(), vec![5, 6, 7]);
    assert_eq!(cell.shape(), &CellShape::Triangle);
}
