use vectar::geometry::{Face, GeometryError};

#[test]
fn face_new_is_empty() {
    let face = Face::new();
    assert!(face.vert_indices.is_empty());
}

#[test]
fn validate_accepts_triangle() {
    let face = Face { vert_indices: vec![1, 2, 3] };
    assert_eq!(face.validate(3), Ok(()));
}

#[test]
fn validate_accepts_repeated_index_with_three_distinct() {
    let face = Face { vert_indices: vec![1, 2, 3, 1] };
    assert_eq!(face.validate(4), Ok(()));
}

#[test]
fn validate_rejects_index_out_of_range() {
    let face = Face { vert_indices: vec![1, 2, 5] };
    assert_eq!(face.validate(4), Err(GeometryError::DegenerateFace));
}

#[test]
fn validate_rejects_zero_index() {
    let face = Face { vert_indices: vec![0, 1, 2] };
    assert_eq!(face.validate(4), Err(GeometryError::DegenerateFace));
}

#[test]
fn validate_rejects_two_distinct_indices() {
    let face = Face { vert_indices: vec![1, 2, 1, 2] };
    assert_eq!(face.validate(4), Err(GeometryError::DegenerateFace));
}

#[test]
fn validate_rejects_short_face() {
    let face = Face { vert_indices: vec![1, 2] };
    assert_eq!(face.validate(4), Err(GeometryError::DegenerateFace));
}

#[test]
fn validate_rejects_empty_face() {
    let face = Face::new();
    assert_eq!(face.validate(4), Err(GeometryError::DegenerateFace));
}

#[test]
fn edge_index_pairs_of_quad() {
    let face = Face { vert_indices: vec![1, 2, 3, 4] };
    assert_eq!(face.edge_index_pairs(), vec![(0, 1), (1, 2), (2, 3), (3, 0)]);
}

#[test]
fn edge_index_pairs_of_triangle() {
    let face = Face { vert_indices: vec![2, 3, 4] };
    assert_eq!(face.edge_index_pairs(), vec![(1, 2), (2, 3), (3, 1)]);
}
