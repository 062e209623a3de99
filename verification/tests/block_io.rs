use aeolus::common::vector3::Vector3;
use aeolus::grid::block::file_extension;
use aeolus::grid::block::BlockCollection;
use aeolus::grid::block::BlockError;
use aeolus::grid::block::GridBlock;
use aeolus::grid::block::GridFileType;
use aeolus::grid::block::UnknownFileType;
use aeolus::grid::block::write_block;
use aeolus::grid::cell::GridCell;
use aeolus::grid::interface::GridInterface;
use aeolus::grid::su2::parse_su2;
use aeolus::grid::su2::read_su2;
use aeolus::grid::su2::write_su2;
use aeolus::grid::su2::Su2Error;
use aeolus::grid::vertex::GridVertex;
use aeolus::grid::Block;
use aeolus::grid::Boundary;
use aeolus::grid::Cell;
use aeolus::grid::Interface;
use aeolus::grid::Vertex;

fn steps(x: f64) -> i64 {
    (x * 1e9).round() as i64
}

fn point(x: f64, y: f64, z: f64) -> Vector3 {
    Vector3 { x: steps(x), y: steps(y), z: steps(z) }
}

fn square_su2() -> Vec<u8> {
    let mut text = String::new();
    text.push_str("% a square of three by three cells\n");
    text.push_str("NDIME= 2\n");
    text.push_str("NPOIN= 16\n");
    for j in 0..4 {
        for i in 0..4 {
            text.push_str(&format!("   {}.0   {}.0  {}\n", i, j, j * 4 + i));
        }
    }
    text.push_str("NELEM= 9\n");
    for j in 0..3 {
        for i in 0..3 {
            let v0 = j * 4 + i;
            text.push_str(&format!("9 {} {} {} {}\n", v0, v0 + 1, v0 + 5, v0 + 4));
        }
    }
    text.push_str("NMARK= 4\n");
    text.push_str("MARKER_TAG=slip_wall_bottom\nMARKER_ELEMS= 3\n3 0 1\n3 1 2\n3 2 3\n");
    text.push_str("MARKER_TAG=outflow\nMARKER_ELEMS= 3\n3 3 7\n3 7 11\n3 11 15\n");
    text.push_str("MARKER_TAG=slip_wall_top\nMARKER_ELEMS= 3\n3 12 13\n3 13 14\n3 14 15\n");
    text.push_str("MARKER_TAG=inflow\nMARKER_ELEMS= 3\n3 0 4\n3 4 8\n3 8 12\n");
    text.into_bytes()
}

fn create_block_elements() -> (Vec<GridVertex>, Vec<GridInterface>, Vec<GridCell>, Vec<Boundary>) {
    let vertices = vec![
        GridVertex::new(point(0.0, 0.0, 0.0), 0),
        GridVertex::new(point(1.0, 0.0, 0.0), 1),
        GridVertex::new(point(2.0, 0.0, 0.0), 2),
        GridVertex::new(point(3.0, 0.0, 0.0), 3),
        GridVertex::new(point(0.0, 1.0, 0.0), 4),
        GridVertex::new(point(1.0, 1.0, 0.0), 5),
        GridVertex::new(point(2.0, 1.0, 0.0), 6),
        GridVertex::new(point(3.0, 1.0, 0.0), 7),
        GridVertex::new(point(0.0, 2.0, 0.0), 8),
        GridVertex::new(point(1.0, 2.0, 0.0), 9),
        GridVertex::new(point(2.0, 2.0, 0.0), 10),
        GridVertex::new(point(3.0, 2.0, 0.0), 11),
        GridVertex::new(point(0.0, 3.0, 0.0), 12),
        GridVertex::new(point(1.0, 3.0, 0.0), 13),
        GridVertex::new(point(2.0, 3.0, 0.0), 14),
        GridVertex::new(point(3.0, 3.0, 0.0), 15),
    ];

    let edges = [
        (0, 1),
        (1, 5),
        (5, 4),
        (4, 0),
        (1, 2),
        (2, 6),
        (6, 5),
        (2, 3),
        (3, 7),
        (7, 6),
        (5, 9),
        (9, 8),
        (8, 4),
        (6, 10),
        (10, 9),
        (7, 11),
        (11, 10),
        (9, 13),
        (13, 12),
        (12, 8),
        (10, 14),
        (14, 13),
        (11, 15),
        (15, 14),
    ];
    let interfaces: Vec<GridInterface> = edges
        .iter()
        .enumerate()
        .map(|(id, (a, b))| {
            GridInterface::new_from_vertices(&[&vertices[*a], &vertices[*b]], id).unwrap()
        })
        .collect();

    let layout: [([usize; 4], [usize; 4]); 9] = [
        ([0, 1, 2, 3], [0, 1, 5, 4]),
        ([4, 5, 6, 1], [1, 2, 6, 5]),
        ([7, 8, 9, 5], [2, 3, 7, 6]),
        ([2, 10, 11, 12], [4, 5, 9, 8]),
        ([6, 13, 14, 10], [5, 6, 10, 9]),
        ([9, 15, 16, 13], [6, 7, 11, 10]),
        ([11, 17, 18, 19], [8, 9, 13, 12]),
        ([14, 20, 21, 17], [9, 10, 14, 13]),
        ([16, 22, 23, 20], [10, 11, 15, 14]),
    ];
    let cells: Vec<GridCell> = layout
        .iter()
        .enumerate()
        .map(|(id, (faces, corners))| {
            let faces: Vec<&GridInterface> = faces.iter().map(|f| &interfaces[*f]).collect();
            let corners: Vec<&GridVertex> = corners.iter().map(|c| &vertices[*c]).collect();
            GridCell::new(&faces, &corners, id).unwrap()
        })
        .collect();

    let boundaries = vec![
        Boundary { tag: b"slip_wall_bottom".to_vec(), interfaces: vec![0, 4, 7] },
        Boundary { tag: b"outflow".to_vec(), interfaces: vec![8, 15, 22] },
        Boundary { tag: b"slip_wall_top".to_vec(), interfaces: vec![18, 21, 23] },
        Boundary { tag: b"inflow".to_vec(), interfaces: vec![3, 12, 19] },
    ];
    (vertices, interfaces, cells, boundaries)
}

#[test]
fn block_grid_file_type() {
    let file_type = GridFileType::from_file_name(b"grid.su2");

    assert_eq!(file_type, Ok(GridFileType::Su2));
}

#[test]
fn block_grid_file_type_unknown() {
    let file_type = GridFileType::from_file_name(b"grid.su3");
    let err = UnknownFileType { name: b"grid.su3".to_vec(), ext: Some(b"su3".to_vec()) };
    assert_eq!(file_type, Err(err));
}

#[test]
fn block_read_su2_file() {
    let block = read_su2(&square_su2(), 0).unwrap();

    let (vertices, interfaces, cells, boundaries) = create_block_elements();

    assert_eq!(block.vertices(), &vertices);
    assert_eq!(block.interfaces(), &interfaces);
    assert_eq!(block.cells(), &cells);
    assert_eq!(block.boundaries(), &boundaries);
    assert_eq!(block.dimensions(), 2);
}

#[test]
fn block_io_read_su2_file() {
    let mut block_collection = BlockCollection::new();
    block_collection.add_block(b"./tests/data/square.su2", &square_su2()).unwrap();
    let block = block_collection.get_block(0);

    let (vertices, interfaces, cells, boundaries) = create_block_elements();

    assert_eq!(block.vertices(), &vertices);
    assert_eq!(block.interfaces(), &interfaces);
    assert_eq!(block.cells(), &cells);
    assert_eq!(block.boundaries(), &boundaries);
    assert_eq!(block.dimensions(), 2);
}

#[test]
fn block_io_write_su2_file() {
    let (vertices, interfaces, cells, boundaries) = create_block_elements();
    let ref_block = GridBlock::new(vertices, interfaces, cells, boundaries, 2, 0).unwrap();
    let mut block_collection = BlockCollection::new();
    let text = write_block(&ref_block, b"su2_test.su2").unwrap();
    block_collection.add_block(b"su2_test.su2", &text).unwrap();
    let read_block = block_collection.get_block(0);

    assert_eq!(ref_block.vertices(), read_block.vertices());
}

#[test]
fn square_grid_has_the_expected_parts() {
    let block = read_su2(&square_su2(), 0).unwrap();
    assert_eq!(block.vertices().len(), 16);
    assert_eq!(block.interfaces().len(), 24);
    assert_eq!(block.cells().len(), 9);
    assert_eq!(block.dimensions(), 2);
    assert_eq!(block.boundaries().len(), 4);
    assert_eq!(block.boundary(b"slip_wall_bottom"), Some(&vec![0, 4, 7]));
    assert_eq!(block.boundary(b"outflow"), Some(&vec![8, 15, 22]));
    assert_eq!(block.boundary(b"slip_wall_top"), Some(&vec![18, 21, 23]));
    assert_eq!(block.boundary(b"inflow"), Some(&vec![3, 12, 19]));
    assert_eq!(block.boundary(b"wall"), None);
    assert_eq!(block.interfaces()[12].vertex_ids(), &vec![8, 4]);
    assert_eq!(block.cells()[5].interface_ids(), vec![9, 15, 16, 13]);
    for cell in block.cells() {
        assert_eq!(cell.volume_doubled(), 2_000_000_000_000_000_000);
    }
}

#[test]
fn every_boundary_interface_of_the_square_bounds_one_cell() {
    let block = read_su2(&square_su2(), 0).unwrap();
    for boundary in block.boundaries() {
        assert_eq!(boundary.interfaces.len(), 3);
        for id in &boundary.interfaces {
            let cells = block.cells().iter().filter(|c| c.interface_ids().contains(id)).count();
            assert_eq!(cells, 1);
        }
    }
    let inner = block.cells().iter().filter(|c| c.interface_ids().contains(&1)).count();
    assert_eq!(inner, 2);
}

#[test]
fn boundary_on_an_inner_edge_lies_on_two_cells() {
    let mut text = String::from_utf8(square_su2()).unwrap();
    text = text.replace("NMARK= 4", "NMARK= 5");
    text.push_str("MARKER_TAG=cut\nMARKER_ELEMS= 1\n3 5 1\n");
    let block = read_su2(text.as_bytes(), 0).unwrap();
    let on_cut = block.boundary(b"cut").unwrap();
    assert_eq!(on_cut, &vec![1]);
    let cells = block.cells().iter().filter(|c| c.interface_ids().contains(&1)).count();
    assert_eq!(cells, 2);
}

#[test]
fn written_block_is_read_back_as_it_was() {
    let block = read_su2(&square_su2(), 3).unwrap();
    let text = write_su2(&block.to_mesh());
    let again = read_su2(&text, 3).unwrap();
    assert_eq!(again.vertices(), block.vertices());
    assert_eq!(again.interfaces(), block.interfaces());
    for (a, b) in again.interfaces().iter().zip(block.interfaces().iter()) {
        assert_eq!(a.vertex_ids(), b.vertex_ids());
        assert_eq!(a.normal(), b.normal());
    }
    assert_eq!(again.cells(), block.cells());
    assert_eq!(again.boundaries(), block.boundaries());
    assert_eq!(again.dimensions(), block.dimensions());
    assert_eq!(again.id(), 3);
    assert_eq!(write_su2(&again.to_mesh()), text);
}

#[test]
fn written_text_has_the_sections_in_order() {
    let text = b"NDIME=2\nNPOIN=3\n0 0\n1.5 0\n0 -0.25\nNELEM=1\n5 0 1 2\nNMARK=1\nMARKER_TAG=wall\nMARKER_ELEMS=1\n3 0 1\n";
    let mesh = parse_su2(text).unwrap();
    assert_eq!(mesh.dimensions, 2);
    assert_eq!(mesh.points, vec![point(0., 0., 0.), point(1.5, 0., 0.), point(0., -0.25, 0.)]);
    assert_eq!(mesh.markers[0].tag, b"wall".to_vec());
    assert_eq!(mesh.markers[0].edges, vec![(0, 1)]);
    assert_eq!(write_su2(&mesh), text.to_vec());
}

#[test]
fn three_dimensions_are_written_with_three_coordinates() {
    let text = b"NDIME=3\nNPOIN=3\n0 0 1\n1.5 0 2\n0 -0.25 3\nNELEM=1\n5 0 1 2\nNMARK=0\n";
    let mesh = parse_su2(text).unwrap();
    assert_eq!(mesh.points[2], point(0., -0.25, 3.));
    assert_eq!(write_su2(&mesh), text.to_vec());
    let block = read_su2(text, 0).unwrap();
    assert_eq!(block.dimensions(), 3);
    assert_eq!(block.vertices()[1].pos(), &point(1.5, 0., 2.));
}

#[test]
fn sections_may_come_in_another_order_and_among_other_lines() {
    let text = b"NDIME= 2\nNELEM= 1\n5 0 1 2 0\nsomething else\nNMARK= 1\nMARKER_TAG= wall \r\nMARKER_ELEMS= 1\n3 1 0\nNPOIN= 3 \n0 0\n1 0\n0 1\n\n";
    let mesh = parse_su2(text);
    assert_eq!(mesh.err(), Some(Su2Error::InvalidElement));
    let text = b"NDIME= 2\nNELEM= 1\n  5 0 1 2  \nsomething else\nNMARK= 1\nMARKER_TAG= wall \r\nMARKER_ELEMS= 1\n3 1 0\nNPOIN= 3 \n0 0\n1 0\n0 1\n\n";
    let block = read_su2(text, 0).unwrap();
    assert_eq!(block.vertices().len(), 3);
    assert_eq!(block.interfaces().len(), 3);
    assert_eq!(block.boundary(b" wall"), Some(&vec![0]));
}

#[test]
fn later_boundary_of_a_name_takes_the_place_of_the_earlier() {
    let mut text = String::from_utf8(square_su2()).unwrap();
    text.push_str("NMARK= 1\nMARKER_TAG=outflow\nMARKER_ELEMS= 1\n3 0 1\n");
    let block = read_su2(text.as_bytes(), 0).unwrap();
    assert_eq!(block.boundaries().len(), 4);
    assert_eq!(block.boundaries()[1].tag, b"outflow".to_vec());
    assert_eq!(block.boundary(b"outflow"), Some(&vec![0]));
}

#[test]
fn texts_that_are_no_mesh_are_refused() {
    let cases: Vec<(&[u8], Su2Error)> = vec![
        (b"NPOIN= 1\n0 0\n", Su2Error::MissingDimensions),
        (b"NELEM= 0\n", Su2Error::MissingDimensions),
        (b"NDIME= 4\n", Su2Error::InvalidDimensions),
        (b"NDIME= 1\n", Su2Error::InvalidDimensions),
        (b"NDIME= two\n", Su2Error::InvalidCount),
        (b"NDIME= 2\nNPOIN= -1\n", Su2Error::InvalidCount),
        (b"NDIME= 2\nNPOIN= 2\n0 0\n", Su2Error::UnexpectedEndOfFile),
        (b"NDIME= 2\nNPOIN= 1\n\n", Su2Error::InvalidPoint),
        (b"NDIME= 2\nNPOIN= 1\n0 x\n", Su2Error::InvalidPoint),
        (b"NDIME= 2\nNPOIN= 1\n0 1e30\n", Su2Error::CoordinateOutOfRange),
        (b"NDIME= 2\nNELEM= 1\n7 0 1 2\n", Su2Error::InvalidElement),
        (b"NDIME= 2\nNELEM= 1\n5 0 1\n", Su2Error::InvalidElement),
        (b"NDIME= 2\nNELEM= 1\n9 0 1 2\n", Su2Error::InvalidElement),
        (b"NDIME= 2\nNELEM= 1\n5 0 1 a\n", Su2Error::InvalidElement),
        (b"NDIME= 2\nNELEM= 1\n", Su2Error::UnexpectedEndOfFile),
        (b"NDIME= 2\nNELEM= 0\nNMARK= 1\nMARKER_ELEMS= 0\n", Su2Error::MissingMarkerTag),
        (b"NDIME= 2\nNELEM= 0\nNMARK= 1\nMARKER_TAG wall\n", Su2Error::MissingMarkerTag),
        (b"NDIME= 2\nNELEM= 0\nNMARK= 1\nMARKER_TAG=w\n3 0 1\n", Su2Error::MissingMarkerElems),
        (b"NDIME= 2\nNELEM= 0\nNMARK= 1\nMARKER_TAG=w\n", Su2Error::UnexpectedEndOfFile),
        (b"NDIME= 2\nNELEM= 0\nNMARK= 1\n", Su2Error::UnexpectedEndOfFile),
        (
            b"NDIME= 2\nNELEM= 0\nNMARK= 1\nMARKER_TAG=w\nMARKER_ELEMS= 1\n5 0 1\n",
            Su2Error::InvalidBoundaryElement,
        ),
        (
            b"NDIME= 2\nNELEM= 0\nNMARK= 1\nMARKER_TAG=w\nMARKER_ELEMS= 1\n3 0 1 2\n",
            Su2Error::InvalidBoundaryElement,
        ),
        (b"NDIME= 2\nNPOIN= 1\n0 0\n", Su2Error::MissingConnectivity),
        (b"", Su2Error::MissingConnectivity),
    ];
    for (text, error) in cases {
        assert_eq!(parse_su2(text).err(), Some(error), "{}", String::from_utf8_lossy(text));
    }
}

#[test]
fn meshes_that_give_no_block_are_refused() {
    let cases: Vec<(&[u8], Su2Error)> = vec![
        (b"NDIME= 2\nNPOIN= 2\n0 0\n1 0\nNELEM= 1\n5 0 1 2\n", Su2Error::VertexOutOfRange),
        (
            b"NDIME= 2\nNPOIN= 3\n0 0\n1 1\n2 2\nNELEM= 1\n5 0 1 2\n",
            Su2Error::DegenerateOrientation,
        ),
        (
            b"NDIME= 2\nNPOIN= 3\n0 0\n1 0\n0 1\nNELEM= 1\n5 0 1 2\nNMARK= 1\nMARKER_TAG=w\nMARKER_ELEMS= 1\n3 0 3\n",
            Su2Error::VertexOutOfRange,
        ),
        (
            b"NDIME= 2\nNPOIN= 4\n0 0\n1 0\n0 1\n5 5\nNELEM= 1\n5 0 1 2\nNMARK= 1\nMARKER_TAG=w\nMARKER_ELEMS= 1\n3 0 3\n",
            Su2Error::UnknownBoundaryEdge,
        ),
    ];
    for (text, error) in cases {
        assert!(parse_su2(text).is_ok());
        assert_eq!(read_su2(text, 0).err(), Some(error), "{}", String::from_utf8_lossy(text));
    }
}

#[test]
fn collection_numbers_blocks_in_order() {
    let mut blocks = BlockCollection::new();
    blocks.add_block(b"square.su2", &square_su2()).unwrap();
    blocks.add_block(b"dir.d/other.grid", &square_su2()).unwrap();
    assert_eq!(blocks.get_block(0).id(), 0);
    assert_eq!(blocks.get_block(1).id(), 1);
    assert_eq!(blocks.blocks().len(), 2);
    let unknown = blocks.add_block(b"square.txt", &square_su2());
    assert_eq!(
        unknown,
        Err(BlockError::UnknownFileType(UnknownFileType {
            name: b"square.txt".to_vec(),
            ext: Some(b"txt".to_vec())
        }))
    );
    let no_mesh = blocks.add_block(b"square.su2", b"NDIME= 2\n");
    assert_eq!(no_mesh, Err(BlockError::Mesh(Su2Error::MissingConnectivity)));
    assert_eq!(blocks.len(), 2);
}

#[test]
fn collection_writes_each_block_to_a_file_of_its_number() {
    let mut blocks = BlockCollection::new();
    blocks.add_block(b"square.su2", &square_su2()).unwrap();
    blocks.add_block(b"square.su2", &square_su2()).unwrap();
    let files = blocks.write_blocks();
    assert_eq!(files.len(), 2);
    assert_eq!(files[0].name, b"block_0000.grid".to_vec());
    assert_eq!(files[1].name, b"block_0001.grid".to_vec());
    assert_eq!(files[0].text, write_su2(&blocks.get_block(0).to_mesh()));
    let mut again = BlockCollection::new();
    again.add_block(&files[1].name, &files[1].text).unwrap();
    assert_eq!(again.get_block(0).cells(), blocks.get_block(1).cells());
}

#[test]
fn file_names_give_their_extension() {
    assert_eq!(file_extension(b"grid.su2"), Some(b"su2".to_vec()));
    assert_eq!(file_extension(b"a.b/grid"), None);
    assert_eq!(file_extension(b"a/grid.tar.gz"), Some(b"gz".to_vec()));
    assert_eq!(file_extension(b".hidden"), None);
    assert_eq!(file_extension(b"grid."), Some(b"".to_vec()));
    assert_eq!(file_extension(b""), None);
    assert_eq!(GridFileType::from_file_name(b"mesh.grid"), Ok(GridFileType::Native));
    assert_eq!(
        GridFileType::from_file_name(b"mesh"),
        Err(UnknownFileType { name: b"mesh".to_vec(), ext: None })
    );
    assert_eq!(GridFileType::Native.extension(), b"grid".to_vec());
    assert_eq!(GridFileType::Su2.extension(), b"su2".to_vec());
}

#[test]
fn block_is_put_together_only_from_parts_that_fit() {
    let (vertices, interfaces, cells, boundaries) = create_block_elements();
    assert!(GridBlock::new(vertices, interfaces, cells, boundaries, 2, 5).is_ok());

    let (vertices, interfaces, cells, boundaries) = create_block_elements();
    assert_eq!(
        GridBlock::new(vertices, interfaces, cells, boundaries, 4, 0).err(),
        Some(BlockError::InvalidReference)
    );

    let (vertices, mut interfaces, cells, boundaries) = create_block_elements();
    interfaces.pop();
    assert_eq!(
        GridBlock::new(vertices, interfaces, cells, boundaries, 2, 0).err(),
        Some(BlockError::InvalidReference)
    );

    let (mut vertices, interfaces, cells, boundaries) = create_block_elements();
    vertices.swap(0, 1);
    assert_eq!(
        GridBlock::new(vertices, interfaces, cells, boundaries, 2, 0).err(),
        Some(BlockError::InvalidReference)
    );

    let (vertices, interfaces, cells, mut boundaries) = create_block_elements();
    boundaries[0].interfaces.push(24);
    assert_eq!(
        GridBlock::new(vertices, interfaces, cells, boundaries, 2, 0).err(),
        Some(BlockError::InvalidReference)
    );
}

#[test]
fn file_name_that_stands_for_no_format_is_not_written() {
    let block = read_su2(&square_su2(), 0).unwrap();
    let written = write_block(&block, b"out/square.vtk");
    assert_eq!(
        written,
        Err(BlockError::UnknownFileType(UnknownFileType {
            name: b"out/square.vtk".to_vec(),
            ext: Some(b"vtk".to_vec())
        }))
    );
    assert_eq!(write_block(&block, b"out/square.grid"), Ok(write_su2(&block.to_mesh())));
}

#[test]
fn unknown_file_type_says_what_is_wrong() {
    let unknown = GridFileType::from_file_name(b"grid.su3").unwrap_err();
    assert_eq!(unknown.message(), b"Unknown extension 'su3' for file 'grid.su3'".to_vec());
    let none = GridFileType::from_file_name(b"grid").unwrap_err();
    assert_eq!(none.message(), b"No extension to file: grid".to_vec());
}
