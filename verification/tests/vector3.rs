use aeolus::common::vector3::ArrayVec3;
use aeolus::common::vector3::Vector3;

fn steps(x: f64) -> i64 {
    (x * 1e9).round() as i64
}

fn create_array_vec() -> ArrayVec3 {
    let vector3s = vec![
        Vector3 { x: 1, y: 0, z: 0 },
        Vector3 { x: 1, y: 1, z: 0 },
        Vector3 { x: 0, y: 1, z: 0 },
    ];
    ArrayVec3::from_vector3s(&vector3s)
}

#[test]
fn vector3_partial_eq() {
    let vec1 = Vector3 { x: steps(1.0), y: steps(2.0), z: steps(3.0) };
    let vec2 = Vector3 { x: steps(1.0), y: steps(2.0), z: steps(3.0) };

    assert_eq!(vec1, vec2);
}

#[test]
fn vector3_partial_eq_different_vecs() {
    let vec1 = Vector3 { x: steps(1.0), y: steps(2.0), z: steps(3.0) };
    let vec2 = Vector3 { x: steps(2.0), y: steps(2.0), z: steps(3.0) };

    assert_ne!(vec1, vec2);
}

#[test]
fn vector3_add_in_place() {
    let mut vec1 = Vector3 { x: steps(1.0), y: steps(2.0), z: steps(3.0) };
    let vec2 = Vector3 { x: steps(2.5), y: steps(3.5), z: steps(4.5) };
    let result = Vector3 { x: steps(3.5), y: steps(5.5), z: steps(7.5) };
    vec1.add_in_place(&vec2);

    assert_eq!(vec1, result);
}

#[test]
fn vector3_dot() {
    let vec1 = Vector3 { x: 1, y: 2, z: 3 };
    let vec2 = Vector3 { x: 2, y: 3, z: 4 };

    assert_eq!(vec1.dot(&vec2), 20);
}

#[test]
fn vector3_cross() {
    let vec1 = Vector3 { x: 1, y: 2, z: 3 };
    let vec2 = Vector3 { x: 2, y: 3, z: 4 };
    let result = Vector3 { x: -1, y: 2, z: -1 };

    assert_eq!(vec1.cross(&vec2), result);
}

#[test]
fn vector3_add() {
    let vec1 = Vector3 { x: steps(1.0), y: steps(2.0), z: steps(3.0) };
    let vec2 = Vector3 { x: steps(2.0), y: steps(3.0), z: steps(4.0) };
    let result = Vector3 { x: steps(3.0), y: steps(5.0), z: steps(7.0) };

    assert_eq!(&vec1 + &vec2, result);
}

#[test]
fn vector3_add_assign() {
    let mut vec1 = Vector3 { x: steps(1.0), y: steps(2.0), z: steps(3.0) };
    let vec2 = Vector3 { x: steps(2.0), y: steps(3.0), z: steps(4.0) };
    vec1 += vec2;
    let result = Vector3 { x: steps(3.0), y: steps(5.0), z: steps(7.0) };

    assert_eq!(vec1, result);
}

#[test]
fn vector3_sub() {
    let vec1 = Vector3 { x: steps(1.0), y: steps(2.0), z: steps(3.0) };
    let vec2 = Vector3 { x: steps(2.0), y: steps(3.0), z: steps(4.0) };
    let result = Vector3 { x: steps(-1.0), y: steps(-1.0), z: steps(-1.0) };

    assert_eq!(&vec1 - &vec2, result);
}

#[test]
fn array_vec_len() {
    let array_vec = create_array_vec();
    assert_eq!(array_vec.len(), 3);
}

#[test]
fn array_vec_scale() {
    let mut array_vec = create_array_vec();
    array_vec.scale_in_place(2);
    assert_eq!(array_vec.x(), &vec![2, 2, 0]);
    assert_eq!(array_vec.y(), &vec![0, 2, 2]);
    assert_eq!(array_vec.z(), &vec![0, 0, 0]);
}

#[test]
fn vector3_scale_by_a_whole_factor() {
    let mut vec = Vector3 { x: 1, y: -2, z: 3 };
    vec.scale_in_place(-4);
    assert_eq!(vec, Vector3 { x: -4, y: 8, z: -12 });
}

#[test]
fn vector3_length_squared_is_the_dot_product_with_itself() {
    let vec = Vector3 { x: 1, y: 2, z: 3 };
    assert_eq!(vec.length_squared(), 14);
    assert_eq!(vec.length_squared(), vec.dot(&vec));
    let length = (vec.length_squared() as f64).sqrt();
    assert!((length - f64::sqrt(14.)).abs() < 1e-14);
}

#[test]
fn vector3_dist_squared_is_the_same_both_ways() {
    let vec1 = Vector3 { x: 1, y: 2, z: 3 };
    let vec2 = Vector3 { x: 2, y: 3, z: 4 };
    assert_eq!(vec1.dist_squared_to(&vec2), 3);
    assert_eq!(vec2.dist_squared_to(&vec1), 3);
}

#[test]
fn vector3_new_from_vec_fills_with_zeros() {
    assert_eq!(Vector3::new_from_vec(vec![7]), Vector3 { x: 7, y: 0, z: 0 });
    assert_eq!(Vector3::new_from_vec(vec![7, 8]), Vector3 { x: 7, y: 8, z: 0 });
    assert_eq!(Vector3::new_from_vec(vec![7, 8, 9]), Vector3 { x: 7, y: 8, z: 9 });
}

#[test]
fn vector3_cross_with_the_axis_out_of_the_plane_turns_right() {
    let tangent = Vector3 { x: 3, y: 4, z: 0 };
    let axis = Vector3 { x: 0, y: 0, z: 1 };
    assert_eq!(tangent.cross(&axis), Vector3 { x: 4, y: -3, z: 0 });
}

#[test]
fn array_vec_keeps_the_vectors_by_component() {
    let array_vec = create_array_vec();
    assert_eq!(array_vec.x(), &vec![1, 1, 0]);
    assert_eq!(array_vec.y(), &vec![0, 1, 1]);
    assert_eq!(array_vec.z(), &vec![0, 0, 0]);
    assert_eq!(array_vec.get(1), Vector3 { x: 1, y: 1, z: 0 });
}

#[test]
fn array_vec_transform_to_a_frame_and_back() {
    let mut array_vec = create_array_vec();
    let n = ArrayVec3::from_vector3s(&[
        Vector3 { x: 1, y: 0, z: 0 },
        Vector3 { x: 0, y: 1, z: 0 },
        Vector3 { x: 0, y: -1, z: 0 },
    ]);
    let t1 = ArrayVec3::from_vector3s(&[
        Vector3 { x: 0, y: 1, z: 0 },
        Vector3 { x: 1, y: 0, z: 0 },
        Vector3 { x: 1, y: 0, z: 0 },
    ]);
    let t2 = ArrayVec3::from_vector3s(&[
        Vector3 { x: 0, y: 0, z: 1 },
        Vector3 { x: 0, y: 0, z: 1 },
        Vector3 { x: 0, y: 0, z: 1 },
    ]);
    array_vec.transform_to_local_frame(&n, &t1, &t2);
    assert_eq!(array_vec.x(), &vec![1, 1, -1]);
    assert_eq!(array_vec.y(), &vec![0, 1, 0]);
    assert_eq!(array_vec.z(), &vec![0, 0, 0]);
    array_vec.transform_to_global_frame(&n, &t1, &t2);
    assert_eq!(array_vec, create_array_vec());
}

#[test]
fn vector3_length() {
    let vec = Vector3 { x: steps(1.0), y: steps(2.0), z: steps(3.0) };
    let length = (vec.length_squared() as f64).sqrt() / 1e9;
    assert_eq!(length, f64::sqrt(14.));
}

#[test]
fn vector3_dist_to() {
    let vec1 = Vector3 { x: steps(1.0), y: steps(2.0), z: steps(3.0) };
    let vec2 = Vector3 { x: steps(2.0), y: steps(3.0), z: steps(4.0) };
    let dist = f64::sqrt(3.);

    assert_eq!((vec1.dist_squared_to(&vec2) as f64).sqrt() / 1e9, dist);
}
