use raytracer::util::obj::face_vertex_indices;
use raytracer::util::objmodel::{parse_obj, ObjError, ObjFace};

#[test]
fn face_vertex_with_all_fields() {
    assert_eq!(face_vertex_indices(b"1/2/3"), Some(vec![0, 1, 2]));
}

#[test]
fn face_vertex_with_missing_texture_coordinate() {
    assert_eq!(face_vertex_indices(b"12//4"), Some(vec![11, usize::MAX, 3]));
}

#[test]
fn face_vertex_plain_and_odd_fields() {
    assert_eq!(face_vertex_indices(b"7"), Some(vec![6]));
    assert_eq!(face_vertex_indices(b""), Some(vec![usize::MAX]));
    assert_eq!(face_vertex_indices(b"/"), Some(vec![usize::MAX, usize::MAX]));
    assert_eq!(face_vertex_indices(b"+3/x/5"), Some(vec![2, usize::MAX, 4]));
}

#[test]
fn face_vertex_rejects_zero() {
    assert_eq!(face_vertex_indices(b"0/1/1"), None);
    assert_eq!(face_vertex_indices(b"1/1/0"), None);
    assert_eq!(face_vertex_indices(b"1//00"), None);
}

/// A unit cube: 8 vertices, 14 texture coordinates, 6 normals and two
/// triangles per side.
const CUBE_OBJ: &str = "# cube
mtllib cube.mtl
o Cube
v 1.000000 -1.000000 -1.000000
v 1.000000 -1.000000 1.000000
v -1.000000 -1.000000 1.000000
v -1.000000 -1.000000 -1.000000
v 1.000000 1.000000 -0.999999
v 0.999999 1.000000 1.000001
v -1.000000 1.000000 1.000000
v -1.000000 1.000000 -1.000000
vt 0.000000 0.000000
vt 1.000000 0.000000
vt 1.000000 1.000000
vt 0.000000 1.000000
vt 0.250000 0.250000
vt 0.750000 0.250000
vt 0.750000 0.750000
vt 0.250000 0.750000
vt 0.500000 0.000000
vt 0.500000 1.000000
vt 0.000000 0.500000
vt 1.000000 0.500000
vt 0.500000 0.500000
vt 0.100000 0.900000
vn 0.000000 -1.000000 0.000000
vn 0.000000 1.000000 0.000000
vn 1.000000 0.000000 0.000000
vn -0.000000 -0.000000 1.000000
vn -1.000000 -0.000000 -0.000000
vn 0.000000 0.000000 -1.000000
usemtl Material
s off
f 1/1/1 2/2/1 3/3/1
f 1/1/1 3/3/1 4/4/1
f 5/5/2 8/6/2 7/7/2
f 5/5/2 7/7/2 6/8/2
f 1/9/3 5/10/3 6/3/3
f 1/9/3 6/3/3 2/2/3
f 2/11/4 6/12/4 7/13/4
f 2/11/4 7/13/4 3/3/4
f 3/1/5 7/14/5 8/4/5
f 3/1/5 8/4/5 4/2/5
f 5/5/6 1/1/6 4/4/6
f 5/5/6 4/4/6 8/6/6
";

#[test]
fn test_obj_loads_correct_number_of_triangles() {
    let model = parse_obj(CUBE_OBJ.as_bytes()).ok().expect("failed to laod test obj `test/res/cube.obj`");

    assert_eq!(model.faces.len(), 12);
}

#[test]
fn obj_cube_lists_and_first_face() {
    let model = parse_obj(CUBE_OBJ.as_bytes()).unwrap();
    assert_eq!(model.vertices.len(), 8);
    assert_eq!(model.tex_coords.len(), 14);
    assert_eq!(model.normals.len(), 6);
    assert_eq!(model.vertices[5], vec![b"0.999999".to_vec(), b"1.000000".to_vec(), b"1.000001".to_vec()]);
    assert_eq!(model.tex_coords[13], vec![b"0.100000".to_vec(), b"0.900000".to_vec()]);
    assert_eq!(model.faces[0], ObjFace { vertices: [0, 1, 2], tex_coords: Some([0, 1, 2]), normals: [0, 0, 0] });
    assert_eq!(model.faces[11], ObjFace { vertices: [4, 3, 7], tex_coords: Some([4, 3, 5]), normals: [5, 5, 5] });
}

#[test]
fn obj_face_without_texture_and_extra_references() {
    let text = b"v 0 0 0\nv 1 0 0\nv 0 1 0\nvn 0 0 1\nf 1//1 2//1 3//1 1//1\n";
    let model = parse_obj(text).unwrap();
    assert_eq!(model.faces, vec![ObjFace { vertices: [0, 1, 2], tex_coords: None, normals: [0, 0, 0] }]);
}

#[test]
fn obj_ignores_other_lines_and_extra_coordinates() {
    let text = b"# comment\r\n\r\ng group\r\nv 1 2 3 4\r\nvt 5 6 7\r\nvn 7 8 9\r\n";
    let model = parse_obj(text).unwrap();
    assert_eq!(model.vertices, vec![vec![b"1".to_vec(), b"2".to_vec(), b"3".to_vec()]]);
    assert_eq!(model.tex_coords, vec![vec![b"5".to_vec(), b"6".to_vec()]]);
    assert_eq!(model.normals.len(), 1);
    assert!(model.faces.is_empty());
    assert_eq!(parse_obj(b"").unwrap().faces.len(), 0);
}

#[test]
fn obj_errors_name_their_line() {
    assert_eq!(parse_obj(b"v 1 2 3\nv 1 2\n").err(), Some(ObjError::MissingCoordinate { line: 2 }));
    assert_eq!(parse_obj(b"vt 1").err(), Some(ObjError::MissingCoordinate { line: 1 }));
    assert_eq!(parse_obj(b"\n\nvn 1 2").err(), Some(ObjError::MissingCoordinate { line: 3 }));
    assert_eq!(parse_obj(b"v 1 2 3\nvn 0 0 1\nf 1//1 1//1").err(), Some(ObjError::FaceTooShort { line: 3 }));
    assert_eq!(parse_obj(b"v 1 2 3\nf 1//1 1//1 1//0").err(), Some(ObjError::FaceIndexZero { line: 2 }));
    // A zero anywhere on the line is found before a missing reference.
    assert_eq!(parse_obj(b"f 0").err(), Some(ObjError::FaceIndexZero { line: 1 }));
}

#[test]
fn obj_face_indices_must_name_earlier_lines() {
    let base = "v 0 0 0\nv 1 0 0\nv 0 1 0\nvn 0 0 1\nvt 0 0\n";
    // A vertex beyond those read so far.
    let t = format!("{}f 1//1 2//1 4//1\nv 1 1 1\n", base);
    assert_eq!(parse_obj(t.as_bytes()).err(), Some(ObjError::IndexOutOfRange { line: 6 }));
    // No normal given.
    let t = format!("{}f 1 2 3\n", base);
    assert_eq!(parse_obj(t.as_bytes()).err(), Some(ObjError::IndexOutOfRange { line: 6 }));
    // Texture coordinates on the first reference only.
    let t = format!("{}f 1/1/1 2//1 3//1\n", base);
    assert_eq!(parse_obj(t.as_bytes()).err(), Some(ObjError::IndexOutOfRange { line: 6 }));
    // Texture coordinates present and in range.
    let t = format!("{}f 1/1/1 2/1/1 3/1/1\n", base);
    assert_eq!(parse_obj(t.as_bytes()).unwrap().faces[0].tex_coords, Some([0, 0, 0]));
}

#[test]
fn obj_words_split_on_unicode_whitespace() {
    let text = "v\u{00A0}1\u{3000}2\u{2009}3\nvn 0 0 1\nf 1//1\u{2002}1//1 1//1\n";
    let model = parse_obj(text.as_bytes()).unwrap();
    assert_eq!(model.vertices[0], vec![b"1".to_vec(), b"2".to_vec(), b"3".to_vec()]);
    assert_eq!(model.faces.len(), 1);
}
