use aeolus::common::vector3::Vector3;
use aeolus::grid::cell::CellFace;
use aeolus::grid::cell::GridCell;
use aeolus::grid::interface::Direction;
use aeolus::grid::interface::GridInterface;
use aeolus::grid::vertex::GridVertex;
use aeolus::grid::Cell;
use aeolus::grid::CellShape;
use aeolus::grid::GridError;
use aeolus::grid::Id;

fn steps(x: f64) -> i64 {
    (x * 1e9).round() as i64
}

fn point(x: f64, y: f64, z: f64) -> Vector3 {
    Vector3 { x: steps(x), y: steps(y), z: steps(z) }
}

fn setup_quad() -> (Vec<GridVertex>, Vec<GridInterface>, GridCell) {
    let vertices = vec![
        GridVertex::new(point(0.0, 0.0, 0.0), 0),
        GridVertex::new(point(1.0, 0.0, 0.0), 1),
        GridVertex::new(point(1.0, 1.0, 0.0), 2),
        GridVertex::new(point(0.0, 1.0, 0.0), 3),
    ];

    let interfaces = vec![
        GridInterface::new_from_vertices(&[&vertices[0], &vertices[1]], 0).unwrap(),
        GridInterface::new_from_vertices(&[&vertices[2], &vertices[1]], 1).unwrap(),
        GridInterface::new_from_vertices(&[&vertices[2], &vertices[3]], 2).unwrap(),
        GridInterface::new_from_vertices(&[&vertices[3], &vertices[0]], 3).unwrap(),
    ];
    let cell = GridCell::new(
        &[&interfaces[0], &interfaces[1], &interfaces[2], &interfaces[3]],
        &[&vertices[0], &vertices[1], &vertices[2], &vertices[3]],
        0,
    )
    .unwrap();

    (vertices, interfaces, cell)
}

fn setup_tri() -> (Vec<GridVertex>, Vec<GridInterface>, GridCell) {
    let vertices = vec![
        GridVertex::new(point(0.0, 0.0, 0.0), 0),
        GridVertex::new(point(1.0, 0.0, 0.0), 1),
        GridVertex::new(point(0.5, 1.0, 0.0), 2),
    ];

    let interfaces = vec![
        GridInterface::new_from_vertices(&[&vertices[0], &vertices[1]], 0).unwrap(),
        GridInterface::new_from_vertices(&[&vertices[2], &vertices[1]], 1).unwrap(),
        GridInterface::new_from_vertices(&[&vertices[2], &vertices[0]], 2).unwrap(),
    ];
    let cell = GridCell::new(
        &[&interfaces[0], &interfaces[1], &interfaces[2]],
        &[&vertices[0], &vertices[1], &vertices[2]],
        0,
    )
    .unwrap();

    (vertices, interfaces, cell)
}

#[test]
fn cell_cell_faces_quad() {
    let (_vertices, _interfaces, cell) = setup_quad();
    let result = vec![
        CellFace::new(0, Direction::Outwards),
        CellFace::new(1, Direction::Inwards),
        CellFace::new(2, Direction::Outwards),
        CellFace::new(3, Direction::Outwards),
    ];

    assert_eq!(cell.cell_faces(), &result);
}

#[test]
fn cell_cell_faces_tri() {
    let (_vertices, _interfaces, cell) = setup_tri();
    let result = vec![
        CellFace::new(0, Direction::Outwards),
        CellFace::new(1, Direction::Inwards),
        CellFace::new(2, Direction::Outwards),
    ];

    assert_eq!(cell.cell_faces(), &result);
}

#[test]
fn cell_shape_quad() {
    let (_vertices, _interfaces, cell) = setup_quad();

    assert_eq!(cell.shape(), &CellShape::Quadrilateral);
}

#[test]
fn cell_shape_tri() {
    let (_vertices, _interfaces, cell) = setup_tri();

    assert_eq!(cell.shape(), &CellShape::Triangle);
}

#[test]
fn cell_vertex_ids() {
    let (_vertices, _interaces, cell) = setup_quad();

    assert_eq!(cell.vertex_ids(), &vec![0, 1, 2, 3]);
}

#[test]
fn unit_square_has_the_volume_one() {
    let (_vertices, _interfaces, cell) = setup_quad();

    assert_eq!(cell.volume_doubled(), 2_000_000_000_000_000_000);
    assert_eq!(cell.volume_doubled() as f64 / 2. / 1e18, 1.0);
}

#[test]
fn triangle_has_half_the_volume_of_its_box() {
    let (_vertices, _interfaces, cell) = setup_tri();

    assert_eq!(cell.volume_doubled(), 1_000_000_000_000_000_000);
    assert_eq!(cell.volume_doubled() as f64 / 2. / 1e18, 0.5);
}

#[test]
fn triangle_has_its_centre_at_the_mean_of_its_vertices() {
    let (_vertices, _interfaces, cell) = setup_tri();
    let centre = cell.centre();

    assert_eq!(centre.sum(), point(1.5, 1.0, 0.0));
    assert_eq!(centre.count(), 3);
    let x = centre.sum().x as f64 / centre.count() as f64 / 1e9;
    let y = centre.sum().y as f64 / centre.count() as f64 / 1e9;
    assert!((x - 0.5).abs() < 1e-14);
    assert!((y - 1. / 3.).abs() < 1e-14);
    assert_eq!(centre.sum().z, 0);
}

#[test]
fn square_has_its_centre_in_the_middle() {
    let (_vertices, _interfaces, cell) = setup_quad();
    let centre = cell.centre();

    assert_eq!(centre.sum(), point(2.0, 2.0, 0.0));
    assert_eq!(centre.count(), 4);
}

#[test]
fn volume_does_not_depend_on_the_sense_of_the_vertices() {
    let (vertices, interfaces, cell) = setup_quad();
    let turned = GridCell::new(
        &[&interfaces[3], &interfaces[2], &interfaces[1], &interfaces[0]],
        &[&vertices[3], &vertices[2], &vertices[1], &vertices[0]],
        7,
    )
    .unwrap();
    assert_eq!(turned.volume_doubled(), cell.volume_doubled());
    assert_eq!(turned.id(), 7);
    assert_eq!(turned.interface_ids(), vec![3, 2, 1, 0]);
}

#[test]
fn vertices_on_one_line_have_no_volume() {
    let vertices = vec![
        GridVertex::new(point(0.0, 0.0, 0.0), 0),
        GridVertex::new(point(1.0, 1.0, 0.0), 1),
        GridVertex::new(point(2.0, 2.0, 0.0), 2),
    ];
    let cell = GridCell::new(&[], &[&vertices[0], &vertices[1], &vertices[2]], 0).unwrap();
    assert_eq!(cell.volume_doubled(), 0);
    assert_eq!(cell.cell_faces().len(), 0);
}

#[test]
fn cell_with_its_centre_on_an_interface_is_refused() {
    let vertices = vec![
        GridVertex::new(point(0.0, 0.0, 0.0), 0),
        GridVertex::new(point(1.0, 1.0, 0.0), 1),
        GridVertex::new(point(2.0, 2.0, 0.0), 2),
    ];
    let interface = GridInterface::new_from_vertices(&[&vertices[0], &vertices[2]], 0).unwrap();
    let cell = GridCell::new(&[&interface], &[&vertices[0], &vertices[1], &vertices[2]], 0);
    assert_eq!(cell.err(), Some(GridError::DegenerateOrientation));
}

#[test]
fn cell_needs_three_or_four_vertices() {
    let (vertices, interfaces, _cell) = setup_quad();
    let two = GridCell::new(&[&interfaces[0]], &[&vertices[0], &vertices[1]], 0);
    assert_eq!(two.err(), Some(GridError::NotEnoughVertices));
    let none = GridCell::new(&[], &[], 0);
    assert_eq!(none.err(), Some(GridError::NotEnoughVertices));
    let five = GridCell::new(
        &[&interfaces[0]],
        &[&vertices[0], &vertices[1], &vertices[2], &vertices[3], &vertices[0]],
        0,
    );
    assert_eq!(five.err(), Some(GridError::TooManyVertices));
}

#[test]
fn cell_shape_from_numbers() {
    assert_eq!(CellShape::from_number_of_vertices(3), Ok(CellShape::Triangle));
    assert_eq!(CellShape::from_number_of_vertices(4), Ok(CellShape::Quadrilateral));
    assert_eq!(CellShape::from_number_of_vertices(2), Err(GridError::NotEnoughVertices));
    assert_eq!(CellShape::from_number_of_vertices(0), Err(GridError::NotEnoughVertices));
    assert_eq!(CellShape::from_number_of_vertices(5), Err(GridError::TooManyVertices));
    assert_eq!(CellShape::Triangle.number_of_vertices(), 3);
    assert_eq!(CellShape::Quadrilateral.number_of_vertices(), 4);
    assert_eq!(CellShape::from_su2_element_type(5), Ok(CellShape::Triangle));
    assert_eq!(CellShape::from_su2_element_type(9), Ok(CellShape::Quadrilateral));
    assert_eq!(CellShape::from_su2_element_type(3), Err(GridError::UnknownElementType));
    assert_eq!(CellShape::Triangle.to_su2_element_type(), 5);
    assert_eq!(CellShape::Quadrilateral.to_su2_element_type(), 9);
}

#[test]
fn cell_shape_interfaces_go_round_the_cell() {
    assert_eq!(
        CellShape::Triangle.interfaces(&[4, 7, 9]),
        vec![vec![4, 7], vec![7, 9], vec![9, 4]]
    );
    assert_eq!(
        CellShape::Quadrilateral.interfaces(&[4, 7, 9, 2]),
        vec![vec![4, 7], vec![7, 9], vec![9, 2], vec![2, 4]]
    );
}

#[test]
fn cell_shape_volume_follows_the_shape() {
    let (quad, _interfaces, _cell) = setup_quad();
    let (tri, _interfaces, _cell) = setup_tri();
    assert_eq!(
        CellShape::Quadrilateral.volume_doubled(&[&quad[0], &quad[1], &quad[2], &quad[3]]),
        2_000_000_000_000_000_000
    );
    assert_eq!(
        CellShape::Triangle.volume_doubled(&[&tri[0], &tri[1], &tri[2]]),
        1_000_000_000_000_000_000
    );
    assert_eq!(
        CellShape::Triangle.volume_doubled(&[&quad[0], &quad[1], &quad[2]]),
        1_000_000_000_000_000_000
    );
}

fn centre_of(cell: &GridCell) -> (f64, f64, f64) {
    let centre = cell.centre();
    let count = centre.count() as f64;
    (
        centre.sum().x as f64 / count / 1e9,
        centre.sum().y as f64 / count / 1e9,
        centre.sum().z as f64 / count / 1e9,
    )
}

fn close(a: (f64, f64, f64), b: (f64, f64, f64)) -> bool {
    let tol = 1e-14;
    (a.0 - b.0).abs() < tol && (a.1 - b.1).abs() < tol && (a.2 - b.2).abs() < tol
}

#[test]
fn cell_quad_volume() {
    let (_vertices, _interfaces, cell) = setup_quad();

    assert_eq!(cell.volume_doubled() as f64 / 2. / 1e18, 1.0);
}

#[test]
fn cell_tri_volume() {
    let (_vertices, _interfaces, cell) = setup_tri();

    assert_eq!(cell.volume_doubled() as f64 / 2. / 1e18, 0.5);
}

#[test]
fn cell_centre_tri() {
    let (_vertices, _interfaces, cell) = setup_tri();

    assert!(close(centre_of(&cell), (0.5, 1. / 3., 0.0)));
}

#[test]
fn cell_centre_quad() {
    let (_vertices, _interfaces, cell) = setup_quad();

    assert!(close(centre_of(&cell), (0.5, 0.5, 0.0)));
}
