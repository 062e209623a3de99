use aeolus::common::vector3::Vector3;
use aeolus::grid::vertex::GridVertex;
use aeolus::grid::Id;
use aeolus::grid::Vertex;

fn steps(x: f64) -> i64 {
    (x * 1e9).round() as i64
}

fn point(x: f64, y: f64, z: f64) -> Vector3 {
    Vector3 { x: steps(x), y: steps(y), z: steps(z) }
}

#[test]
fn vertex_new() {
    let vertex = GridVertex::new(point(0.0, 0.0, 0.0), 0);

    assert_eq!(vertex.pos(), &point(0.0, 0.0, 0.0));
    assert_eq!(vertex.id(), 0);
}

#[test]
fn vertex_vector_to() {
    let vertex1 = GridVertex::new(point(1.0, 2.0, 3.0), 0);
    let vertex2 = GridVertex::new(point(2.0, 3.0, 4.0), 1);
    let result = point(1.0, 1.0, 1.0);
    let vec = vertex1.vector_to(&vertex2);

    assert_eq!(vec, result);
}

#[test]
fn vertex_partial_eq() {
    let vertex1 = GridVertex::new(point(1.0, 2.0, 3.0), 0);
    let vertex2 = GridVertex::new(point(1.0, 2.0, 3.0), 0);

    assert_eq!(vertex1, vertex2);
}

#[test]
fn vertex_partial_ne() {
    let vertex1 = GridVertex::new(point(1.0, 2.0, 3.0), 0);
    let vertex2 = GridVertex::new(point(1.0, 1.0, 4.0), 1);

    assert_ne!(vertex1, vertex2);
}

#[test]
fn vertex_pos() {
    let vertex = GridVertex::new(point(1.0, 2.0, 3.0), 0);

    assert_eq!(vertex.pos(), &point(1.0, 2.0, 3.0));
}

#[test]
fn vertex_id() {
    let vertex = GridVertex::new(point(1.0, 2.0, 3.0), 1);

    assert_eq!(vertex.id(), 1);
}

#[test]
fn vertex_dist_squared_is_exact() {
    let vertex1 = GridVertex::new(point(1.0, 2.0, 3.0), 0);
    let vertex2 = GridVertex::new(point(2.0, 3.0, 4.0), 1);
    let square = vertex1.dist_squared_to(&vertex2);

    assert_eq!(square, 3_000_000_000_000_000_000);
    let dist = (square as f64).sqrt() / 1e9;
    assert!((dist - f64::sqrt(3.)).abs() < 1e-14);
}

#[test]
fn vertices_with_one_number_differ_by_their_positions() {
    let vertex1 = GridVertex::new(point(1.0, 2.0, 3.0), 0);
    let vertex2 = GridVertex::new(point(1.0, 2.0, 3.000000001), 0);

    assert_ne!(vertex1, vertex2);
}

#[test]
fn vertex_dist_to() {
    let vertex1 = GridVertex::new(point(1.0, 2.0, 3.0), 0);
    let vertex2 = GridVertex::new(point(2.0, 3.0, 4.0), 1);
    let result = f64::sqrt(3.);
    let dist = (vertex1.dist_squared_to(&vertex2) as f64).sqrt() / 1e9;

    assert_eq!(dist, result);
}
