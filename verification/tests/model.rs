use vectar::geometry::GeometryError;
use vectar::model::load_model_faces;

fn indices(content: &str, vert_count: usize) -> Result<Vec<Vec<usize>>, GeometryError> {
    load_model_faces(content.as_bytes(), vert_count)
        .map(|faces| faces.into_iter().map(|f| f.vert_indices).collect())
}

#[test]
fn loads_faces_with_normal_separators() {
    let content = "v 1.0 1.0 1.0\nf 1//1 2//2 3//3\nf 3//1 4//2 1//3\n";
    assert_eq!(indices(content, 4), Ok(vec![vec![1, 2, 3], vec![3, 4, 1]]));
}

#[test]
fn loads_faces_without_normals() {
    let content = "f 1 2 3\nf 2 3 4\n";
    assert_eq!(indices(content, 4), Ok(vec![vec![1, 2, 3], vec![2, 3, 4]]));
}

#[test]
fn loads_quad_face() {
    let content = "f 1 2 3 4\n";
    assert_eq!(indices(content, 4), Ok(vec![vec![1, 2, 3, 4]]));
}

#[test]
fn ignores_non_face_lines() {
    let content = "# cube\nv 0.0 0.0 0.0\nvn 0.0 1.0 0.0\ns off\n";
    assert_eq!(indices(content, 0), Ok(vec![]));
}

#[test]
fn empty_content_has_no_faces() {
    assert_eq!(indices("", 8), Ok(vec![]));
}

#[test]
fn handles_crlf_line_endings() {
    let content = "f 1 2 3\r\nf 2 3 4\r\n";
    assert_eq!(indices(content, 4), Ok(vec![vec![1, 2, 3], vec![2, 3, 4]]));
}

#[test]
fn handles_missing_final_newline() {
    let content = "f 1 2 3";
    assert_eq!(indices(content, 3), Ok(vec![vec![1, 2, 3]]));
}

#[test]
fn handles_repeated_blanks() {
    let content = "f  1   2  3\n";
    assert_eq!(indices(content, 3), Ok(vec![vec![1, 2, 3]]));
}

#[test]
fn reads_multi_digit_indices() {
    let content = "f 10//2 11//3 12//4\n";
    assert_eq!(indices(content, 12), Ok(vec![vec![10, 11, 12]]));
}

#[test]
fn rejects_face_with_index_out_of_range() {
    let content = "f 1 2 5\n";
    assert_eq!(indices(content, 4), Err(GeometryError::DegenerateFace));
}

#[test]
fn rejects_face_with_zero_index() {
    let content = "f 0 1 2\n";
    assert_eq!(indices(content, 4), Err(GeometryError::DegenerateFace));
}

#[test]
fn rejects_face_with_two_indices() {
    let content = "f 1 2\n";
    assert_eq!(indices(content, 4), Err(GeometryError::DegenerateFace));
}

#[test]
fn rejects_face_with_two_distinct_indices() {
    let content = "f 1 2 1 2\n";
    assert_eq!(indices(content, 4), Err(GeometryError::DegenerateFace));
}

#[test]
fn rejects_unreadable_index() {
    let content = "f 1 2 x\n";
    assert_eq!(indices(content, 4), Err(GeometryError::DegenerateFace));
}

#[test]
fn rejects_index_too_large_for_usize() {
    let content = "f 1 2 99999999999999999999999999\n";
    assert_eq!(indices(content, 4), Err(GeometryError::DegenerateFace));
}

#[test]
fn keeps_faces_before_first_bad_one_out_of_result() {
    let content = "f 1 2 3\nf 1 2 9\n";
    assert_eq!(indices(content, 4), Err(GeometryError::DegenerateFace));
}

#[test]
fn face_keeps_declared_index_order() {
    let content = "f 3 1 2\n";
    assert_eq!(indices(content, 3), Ok(vec![vec![3, 1, 2]]));
}
