use aeolus::common::vector3::Vector3;
use aeolus::grid::geom_calc::MeanPoint;
use aeolus::grid::interface::hash;
use aeolus::grid::interface::Direction;
use aeolus::grid::interface::GridInterface;
use aeolus::grid::interface::InterfaceCollection;
use aeolus::grid::vertex::GridVertex;
use aeolus::grid::GridError;
use aeolus::grid::Id;
use aeolus::grid::Interface;
use aeolus::grid::InterfaceShape;

fn steps(x: f64) -> i64 {
    (x * 1e9).round() as i64
}

fn point(x: f64, y: f64, z: f64) -> Vector3 {
    Vector3 { x: steps(x), y: steps(y), z: steps(z) }
}

fn square_vertices() -> Vec<GridVertex> {
    vec![
        GridVertex::new(point(0.0, 0.0, 0.0), 0),
        GridVertex::new(point(1.0, 0.0, 0.0), 1),
        GridVertex::new(point(0.0, 1.0, 0.0), 2),
        GridVertex::new(point(1.0, 1.0, 0.0), 3),
    ]
}

fn diagonal() -> GridInterface {
    let vertices =
        vec![GridVertex::new(point(0.0, 0.0, 0.0), 0), GridVertex::new(point(1.0, 1.0, 0.0), 1)];
    GridInterface::new_from_vertices(&[&vertices[0], &vertices[1]], 0).unwrap()
}

#[test]
fn hash_test() {
    let vertices = &[0, 1, 11];
    let vertices_hash = hash(vertices);

    assert_eq!(vertices_hash, Some(1110));
}

#[test]
fn interface_equal() {
    let vertices = square_vertices();
    let id = 1;
    let face1 = GridInterface::new_from_vertices(&[&vertices[1], &vertices[2]], id).unwrap();

    let interface_vertices = vec![&vertices[1], &vertices[2]];

    assert!(face1.equal_to_vertices(&interface_vertices));
}

#[test]
fn interface_not_equal() {
    let vertices = square_vertices();
    let id = 1;
    let face1 = GridInterface::new_from_vertices(&[&vertices[1], &vertices[2]], id).unwrap();

    let interface_vertices = vec![&vertices[2], &vertices[3]];

    assert!(!face1.equal_to_vertices(&interface_vertices));
}

#[test]
fn interface_partial_eq() {
    let vertices = square_vertices();
    let id = 1;
    let face1 = GridInterface::new_from_vertices(&[&vertices[1], &vertices[2]], id).unwrap();

    let interface_vertices = vec![&vertices[1], &vertices[2]];

    assert_eq!(face1, interface_vertices);
}

#[test]
fn interface_partial_ne() {
    let vertices = square_vertices();
    let id = 1;
    let face1 = GridInterface::new_from_vertices(&[&vertices[1], &vertices[2]], id).unwrap();

    let interface_vertices = vec![&vertices[0], &vertices[1]];

    assert_ne!(face1, interface_vertices);
}

#[test]
fn interface_t2() {
    let interface = diagonal();
    let t2 = Vector3 { x: 0, y: 0, z: 1 };

    assert_eq!(interface.tangent2(), t2);
}

#[test]
fn interface_shape() {
    let interface = diagonal();

    assert_eq!(interface.shape(), &InterfaceShape::Line);
}

#[test]
fn interface_dimensions() {
    let interface = diagonal();

    assert_eq!(interface.dimensions(), 2);
}

#[test]
fn interface_compute_direction_outwards() {
    let interface = diagonal();
    let centre = MeanPoint::of_point(point(0.4, 0.6, 0.0));

    assert_eq!(interface.compute_direction(&centre), Ok(Direction::Outwards));
}

#[test]
fn interface_compute_direction_inwards() {
    let interface = diagonal();
    let centre = MeanPoint::of_point(point(0.6, 0.4, 0.0));

    assert_eq!(interface.compute_direction(&centre), Ok(Direction::Inwards));
}

#[test]
fn interface_vertex_ids() {
    let vertices =
        vec![GridVertex::new(point(0.0, 0.0, 0.0), 3), GridVertex::new(point(1.0, 1.0, 0.0), 1)];
    let interface = GridInterface::new_from_vertices(&[&vertices[0], &vertices[1]], 0).unwrap();

    assert_eq!(interface.vertex_ids(), &vec![3, 1]);
}

#[test]
fn diagonal_has_the_area_and_the_normal_of_its_length() {
    let interface = diagonal();

    assert_eq!(interface.area_squared(), 2_000_000_000_000_000_000);
    let area = (interface.area_squared() as f64).sqrt() / 1e9;
    assert!((area - f64::sqrt(2.)).abs() < 1e-14);

    let normal = interface.normal();
    assert_eq!(normal, point(1.0, -1.0, 0.0));
    let length = (normal.length_squared() as f64).sqrt();
    assert!((normal.x as f64 / length - 1. / f64::sqrt(2.)).abs() < 1e-14);
    assert!((normal.y as f64 / length + 1. / f64::sqrt(2.)).abs() < 1e-14);
    assert_eq!(normal.z, 0);

    let tangent = interface.tangent1();
    assert_eq!(tangent, point(1.0, 1.0, 0.0));
    assert_eq!(tangent.cross(&interface.tangent2()), normal);
}

#[test]
fn interface_centre_is_the_mean_of_its_vertices() {
    let interface = diagonal();
    assert_eq!(interface.centre().sum(), point(1.0, 1.0, 0.0));
    assert_eq!(interface.centre().count(), 2);
}

#[test]
fn interfaces_are_the_same_by_their_number() {
    let vertices = square_vertices();
    let one = GridInterface::new_from_vertices(&[&vertices[0], &vertices[1]], 4).unwrap();
    let other = GridInterface::new_from_vertices(&[&vertices[2], &vertices[3]], 4).unwrap();
    let third = GridInterface::new_from_vertices(&[&vertices[0], &vertices[1]], 5).unwrap();
    assert!(one == other);
    assert!(one != third);
    assert_eq!(one.id(), 4);
}

#[test]
fn interface_needs_two_vertices() {
    let vertices = square_vertices();
    assert_eq!(
        GridInterface::new_from_vertices(&[&vertices[0]], 0).err(),
        Some(GridError::NotEnoughVertices)
    );
    assert_eq!(GridInterface::new_from_vertices(&[], 0).err(), Some(GridError::NotEnoughVertices));
    assert_eq!(
        GridInterface::new_from_vertices(&[&vertices[0], &vertices[1], &vertices[2]], 0).err(),
        Some(GridError::TooManyVertices)
    );
}

#[test]
fn interface_shape_from_numbers() {
    assert_eq!(InterfaceShape::from_number_of_vertices(2), Ok(InterfaceShape::Line));
    assert_eq!(InterfaceShape::from_number_of_vertices(0), Err(GridError::NotEnoughVertices));
    assert_eq!(InterfaceShape::from_number_of_vertices(1), Err(GridError::NotEnoughVertices));
    assert_eq!(InterfaceShape::from_number_of_vertices(3), Err(GridError::TooManyVertices));
    assert_eq!(InterfaceShape::from_su2_element_type(3), Ok(InterfaceShape::Line));
    assert_eq!(InterfaceShape::from_su2_element_type(5), Err(GridError::UnknownElementType));
    assert_eq!(InterfaceShape::Line.to_su2_element_type(), 3);
}

#[test]
fn point_on_the_line_of_an_interface_has_no_direction() {
    let interface = diagonal();
    let on_the_line = MeanPoint::of_point(point(0.25, 0.25, 0.0));
    assert_eq!(interface.compute_direction(&on_the_line), Err(GridError::DegenerateOrientation));
    let beyond_the_ends = MeanPoint::of_point(point(7.0, 7.0, 5.0));
    assert_eq!(
        interface.compute_direction(&beyond_the_ends),
        Err(GridError::DegenerateOrientation)
    );
    let one_step_off = MeanPoint::of_point(Vector3 { x: 250_000_001, y: 250_000_000, z: 0 });
    assert_eq!(interface.compute_direction(&one_step_off), Ok(Direction::Inwards));
}

#[test]
fn turned_interface_has_the_other_direction() {
    let vertices = square_vertices();
    let forth = GridInterface::new_from_vertices(&[&vertices[0], &vertices[3]], 0).unwrap();
    let back = GridInterface::new_from_vertices(&[&vertices[3], &vertices[0]], 0).unwrap();
    let centre = MeanPoint::of_point(point(0.6, 0.4, 0.0));
    assert_eq!(forth.compute_direction(&centre), Ok(Direction::Inwards));
    assert_eq!(back.compute_direction(&centre), Ok(Direction::Outwards));
}

#[test]
fn interface_without_length_faces_outwards() {
    let same = vec![GridVertex::new(point(1.0, 1.0, 0.0), 0), GridVertex::new(point(1.0, 1.0, 0.0), 1)];
    let interface = GridInterface::new_from_vertices(&[&same[0], &same[1]], 0).unwrap();
    let centre = MeanPoint::of_point(point(0.6, 0.4, 0.0));
    assert_eq!(interface.area_squared(), 0);
    assert_eq!(interface.compute_direction(&centre), Ok(Direction::Outwards));
}

#[test]
fn collection_keeps_every_interface_once() {
    let vertices = square_vertices();
    let mut collection = InterfaceCollection::with_capacity(4);
    assert_eq!(collection.len(), 0);
    let first = collection.add_or_retrieve(&[&vertices[0], &vertices[1]]).unwrap();
    assert_eq!(first, 0);
    assert_eq!(collection.len(), 1);
    let again = collection.add_or_retrieve(&[&vertices[0], &vertices[1]]).unwrap();
    assert_eq!(again, first);
    assert_eq!(collection.len(), 1);
    let turned = collection.add_or_retrieve(&[&vertices[1], &vertices[0]]).unwrap();
    assert_eq!(turned, first);
    assert_eq!(collection.len(), 1);
    let second = collection.add_or_retrieve(&[&vertices[1], &vertices[3]]).unwrap();
    assert_eq!(second, 1);
    assert_eq!(collection.len(), 2);
    assert_eq!(collection.interface_with_id(0).vertex_ids(), &vec![0, 1]);
    assert_eq!(collection.interface_with_id(1).vertex_ids(), &vec![1, 3]);
    assert_eq!(collection.interface_with_id(1).id(), 1);
}

#[test]
fn collection_finds_what_it_holds() {
    let vertices = square_vertices();
    let mut collection = InterfaceCollection::with_capacity(4);
    collection.add_or_retrieve(&[&vertices[0], &vertices[1]]).unwrap();
    collection.add_or_retrieve(&[&vertices[1], &vertices[3]]).unwrap();
    assert_eq!(collection.find_interface(&[&vertices[3], &vertices[1]]), Some(1));
    assert_eq!(collection.find_interface(&[&vertices[0], &vertices[1]]), Some(0));
    assert_eq!(collection.find_interface(&[&vertices[0], &vertices[3]]), None);
    assert_eq!(collection.find_interface(&[&vertices[0]]), None);
    assert_eq!(
        collection.add_or_retrieve(&[&vertices[0]]),
        Err(GridError::NotEnoughVertices)
    );
    assert_eq!(
        collection.add_or_retrieve(&[&vertices[0], &vertices[1], &vertices[2]]),
        Err(GridError::TooManyVertices)
    );
    assert_eq!(collection.len(), 2);
    let listed = collection.interfaces();
    assert_eq!(listed.len(), 2);
    assert_eq!(listed[0].vertex_ids(), &vec![0, 1]);
    assert_eq!(listed[1].vertex_ids(), &vec![1, 3]);
    let owned = collection.into_interfaces();
    assert_eq!(owned.len(), 2);
}

#[test]
fn collection_tells_apart_what_the_digit_key_does_not() {
    assert_eq!(hash(&[211, 0]), Some(2110));
    assert_eq!(hash(&[21, 10]), Some(2110));
    let vertices: Vec<GridVertex> =
        (0..212).map(|i| GridVertex::new(point(i as f64, 0.0, 0.0), i)).collect();
    let mut collection = InterfaceCollection::with_capacity(2);
    let first = collection.add_or_retrieve(&[&vertices[211], &vertices[0]]).unwrap();
    let second = collection.add_or_retrieve(&[&vertices[21], &vertices[10]]).unwrap();
    assert_ne!(first, second);
    assert_eq!(collection.len(), 2);
}

#[test]
fn digit_key_does_not_depend_on_the_order() {
    assert_eq!(hash(&[1, 11]), Some(111));
    assert_eq!(hash(&[11, 1]), Some(111));
    assert_eq!(hash(&[11, 0, 1]), Some(1110));
    assert_eq!(hash(&[7]), Some(7));
    assert_eq!(hash(&[0, 0]), Some(0));
}

#[test]
fn digit_key_of_nothing_or_too_much_is_none() {
    assert_eq!(hash(&[]), None);
    assert_eq!(hash(&[usize::MAX, 1]), None);
    assert_eq!(hash(&[usize::MAX]), Some(usize::MAX));
}

#[test]
fn interface_equal_to_vertex_ids() {
    let interface = diagonal();
    assert!(interface.equal_to_vertex_ids(&[0, 1]));
    assert!(interface.equal_to_vertex_ids(&[1]));
    assert!(interface.equal_to_vertex_ids(&[]));
    assert!(!interface.equal_to_vertex_ids(&[1, 2]));
    assert!(interface.has_vertex(1));
    assert!(!interface.has_vertex(2));
}

fn unit(vector: Vector3) -> (f64, f64, f64) {
    let length = (vector.length_squared() as f64).sqrt();
    (vector.x as f64 / length, vector.y as f64 / length, vector.z as f64 / length)
}

fn close(a: (f64, f64, f64), b: (f64, f64, f64)) -> bool {
    let tol = 1e-14;
    (a.0 - b.0).abs() < tol && (a.1 - b.1).abs() < tol && (a.2 - b.2).abs() < tol
}

#[test]
fn interface_area() {
    let interface = diagonal();

    assert_eq!((interface.area_squared() as f64).sqrt() / 1e9, f64::sqrt(2.));
}

#[test]
fn interface_norm() {
    let interface = diagonal();

    let norm = (1. / f64::sqrt(2.), -1. / f64::sqrt(2.), 0.0);
    assert!(close(unit(interface.normal()), norm));
}

#[test]
fn interface_t1() {
    let interface = diagonal();
    let t1 = (1.0 / f64::sqrt(2.), 1. / f64::sqrt(2.), 0.0);

    assert!(close(unit(interface.tangent1()), t1));
}
