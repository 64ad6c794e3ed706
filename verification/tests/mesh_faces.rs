use ray_tracing::mesh::face_indices;

#[test]
fn face_without_normals() {
    let (v, n) = face_indices((0, 1, 2), (None, None, None), 3, 0);
    assert_eq!(v, (0, 1, 2));
    assert_eq!(n, None);
}

#[test]
fn face_with_normals() {
    let (v, n) = face_indices((4, 0, 2), (Some(1), Some(1), Some(0)), 5, 2);
    assert_eq!(v, (4, 0, 2));
    assert_eq!(n, Some((1, 1, 0)));
}
