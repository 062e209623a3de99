use aeolus::common::number::COORD_MAX;
use aeolus::common::vector3::Vector3;
use aeolus::grid::block::mesh_of_block;
use aeolus::grid::block::GridBlock;
use aeolus::grid::su2::add_marker;
use aeolus::grid::su2::find_marker;
use aeolus::grid::su2::parse_boundary_edge;
use aeolus::grid::su2::parse_element;
use aeolus::grid::su2::parse_point;
use aeolus::grid::su2::read_boundary;
use aeolus::grid::su2::Su2Element;
use aeolus::grid::su2::Su2Error;
use aeolus::grid::su2::Su2Marker;
use aeolus::grid::su2::Su2Mesh;
use aeolus::grid::Block;
use aeolus::grid::Cell;
use aeolus::grid::CellShape;
use aeolus::grid::Interface;

fn triangle_mesh() -> Su2Mesh {
    Su2Mesh {
        dimensions: 2,
        points: vec![
            Vector3 { x: 0, y: 0, z: 0 },
            Vector3 { x: 4, y: 0, z: 0 },
            Vector3 { x: 0, y: 3, z: 0 },
            Vector3 { x: 4, y: 3, z: 0 },
        ],
        elements: vec![
            Su2Element { shape: CellShape::Triangle, vertex_ids: vec![0, 1, 2] },
            Su2Element { shape: CellShape::Triangle, vertex_ids: vec![2, 1, 3] },
        ],
        markers: vec![Su2Marker { tag: b"left".to_vec(), edges: vec![(0, 2)] }],
    }
}

#[test]
fn block_of_a_mesh_keeps_each_side_once() {
    let block = GridBlock::from_mesh(&triangle_mesh(), 9).unwrap();
    assert_eq!(block.id(), 9);
    assert_eq!(block.interfaces().len(), 5);
    assert_eq!(block.interfaces()[1].vertex_ids(), &vec![1, 2]);
    assert_eq!(block.cells()[0].interface_ids(), vec![0, 1, 2]);
    assert_eq!(block.cells()[1].interface_ids(), vec![1, 3, 4]);
    assert_eq!(block.cells()[0].volume_doubled(), 12);
    assert_eq!(block.boundary(b"left"), Some(&vec![2]));
    assert_eq!(block.interfaces()[2].vertex_ids(), &vec![2, 0]);
}

#[test]
fn block_gives_back_the_mesh_that_declares_it() {
    let block = GridBlock::from_mesh(&triangle_mesh(), 0).unwrap();
    let mesh = block.to_mesh();
    assert_eq!(mesh.dimensions, 2);
    assert_eq!(mesh.points, triangle_mesh().points);
    assert_eq!(mesh.elements, triangle_mesh().elements);
    assert_eq!(mesh.markers, vec![Su2Marker { tag: b"left".to_vec(), edges: vec![(2, 0)] }]);
    assert_eq!(mesh_of_block(&block), Ok(mesh));
    let again = GridBlock::from_mesh(&block.to_mesh(), 0).unwrap();
    assert_eq!(again.cells(), block.cells());
    assert_eq!(again.boundaries(), block.boundaries());
}

#[test]
fn meshes_that_do_not_fit_give_no_block() {
    let mut mesh = triangle_mesh();
    mesh.dimensions = 1;
    assert_eq!(GridBlock::from_mesh(&mesh, 0).err(), Some(Su2Error::InvalidDimensions));

    let mut mesh = triangle_mesh();
    mesh.points[3].x = COORD_MAX + 1;
    assert_eq!(GridBlock::from_mesh(&mesh, 0).err(), Some(Su2Error::CoordinateOutOfRange));
    mesh.points[3].x = COORD_MAX;
    assert!(GridBlock::from_mesh(&mesh, 0).is_ok());

    let mut mesh = triangle_mesh();
    mesh.elements[1].vertex_ids.push(0);
    assert_eq!(GridBlock::from_mesh(&mesh, 0).err(), Some(Su2Error::InvalidElement));

    let mut mesh = triangle_mesh();
    mesh.elements[1].vertex_ids[2] = 4;
    assert_eq!(GridBlock::from_mesh(&mesh, 0).err(), Some(Su2Error::VertexOutOfRange));

    let mut mesh = triangle_mesh();
    mesh.markers[0].edges.push((0, 3));
    assert_eq!(GridBlock::from_mesh(&mesh, 0).err(), Some(Su2Error::UnknownBoundaryEdge));

    let mut mesh = triangle_mesh();
    mesh.points[2] = Vector3 { x: 8, y: 0, z: 0 };
    assert_eq!(GridBlock::from_mesh(&mesh, 0).err(), Some(Su2Error::DegenerateOrientation));
}

#[test]
fn largest_coordinates_are_computed_with() {
    let mesh = Su2Mesh {
        dimensions: 2,
        points: vec![
            Vector3 { x: -COORD_MAX, y: -COORD_MAX, z: -COORD_MAX },
            Vector3 { x: COORD_MAX, y: -COORD_MAX, z: COORD_MAX },
            Vector3 { x: COORD_MAX, y: COORD_MAX, z: -COORD_MAX },
            Vector3 { x: -COORD_MAX, y: COORD_MAX, z: COORD_MAX },
        ],
        elements: vec![Su2Element { shape: CellShape::Quadrilateral, vertex_ids: vec![0, 1, 2, 3] }],
        markers: vec![],
    };
    let block = GridBlock::from_mesh(&mesh, 0).unwrap();
    let side = 2 * COORD_MAX as i128;
    assert_eq!(block.cells()[0].volume_doubled(), 2 * side * side);
    assert_eq!(block.interfaces()[0].area_squared(), 2 * side * side);
    assert_eq!(block.cells()[0].cell_faces().len(), 4);
}

#[test]
fn lines_of_a_mesh_are_read_one_by_one() {
    assert_eq!(parse_point(b"0.5 1 7", 2), Ok(Vector3 { x: 500_000_000, y: 1_000_000_000, z: 0 }));
    assert_eq!(
        parse_point(b"0.5 1 7", 3),
        Ok(Vector3 { x: 500_000_000, y: 1_000_000_000, z: 7_000_000_000 })
    );
    assert_eq!(parse_point(b"0.5", 2), Ok(Vector3 { x: 500_000_000, y: 0, z: 0 }));
    assert_eq!(parse_point(b"1 2 3 4", 4), Err(Su2Error::InvalidPoint));
    assert_eq!(parse_point(b"1 2", 0), Err(Su2Error::InvalidPoint));
    assert_eq!(
        parse_element(b"9 3 2 1 0"),
        Ok(Su2Element { shape: CellShape::Quadrilateral, vertex_ids: vec![3, 2, 1, 0] })
    );
    assert_eq!(parse_element(b""), Err(Su2Error::InvalidElement));
    assert_eq!(parse_boundary_edge(b"3 7 8"), Ok((7, 8)));
    assert_eq!(parse_boundary_edge(b"3 7"), Err(Su2Error::InvalidBoundaryElement));
}

#[test]
fn boundary_is_read_with_its_edges() {
    let lines: Vec<Vec<u8>> = vec![
        b"NMARK= 1".to_vec(),
        b"MARKER_TAG= lower = wall".to_vec(),
        b"MARKER_ELEMS= 2".to_vec(),
        b"3 0 1".to_vec(),
        b"3 1 2".to_vec(),
        b"3 2 3".to_vec(),
    ];
    assert_eq!(
        read_boundary(&lines, 1),
        Ok((Su2Marker { tag: b" lower = wall".to_vec(), edges: vec![(0, 1), (1, 2)] }, 5))
    );
    assert_eq!(read_boundary(&lines, 0), Err(Su2Error::MissingMarkerTag));
    assert_eq!(read_boundary(&lines, 6), Err(Su2Error::UnexpectedEndOfFile));
}

#[test]
fn markers_of_one_name_are_kept_once() {
    let mut markers = vec![
        Su2Marker { tag: b"a".to_vec(), edges: vec![(0, 1)] },
        Su2Marker { tag: b"b".to_vec(), edges: vec![(1, 2)] },
    ];
    assert_eq!(find_marker(&markers, b"b"), Some(1));
    assert_eq!(find_marker(&markers, b"c"), None);
    add_marker(&mut markers, Su2Marker { tag: b"a".to_vec(), edges: vec![(5, 6)] });
    add_marker(&mut markers, Su2Marker { tag: b"c".to_vec(), edges: vec![] });
    assert_eq!(markers.len(), 3);
    assert_eq!(markers[0], Su2Marker { tag: b"a".to_vec(), edges: vec![(5, 6)] });
    assert_eq!(markers[2].tag, b"c".to_vec());
}
