use raytracer::obj::{find_reference, parse_face, parse_face_corner, sibling_path};

fn words(line: &str) -> Vec<Vec<u8>> {
    line.split_whitespace().map(|w| w.as_bytes().to_vec()).collect()
}

#[test]
fn face_corner_is_one_based_vertex_uv_normal() {
    assert_eq!(parse_face_corner(&b"1/2/3".to_vec()), Some((0, 1, 2)));
    assert_eq!(parse_face_corner(&b"4294967295/10/7".to_vec()), Some((4294967294, 9, 6)));
}

#[test]
fn malformed_face_corners_are_rejected() {
    for bad in ["0/1/1", "1//1", "1/2", "1/2/3/4", "a/1/1", "1/2/3 ", "", "4294967296/1/1", "/1/1"] {
        assert_eq!(parse_face_corner(&bad.as_bytes().to_vec()), None, "{}", bad);
    }
}

#[test]
fn face_record_gives_triangle_indices() {
    let t = parse_face(&words("1/2/3 4/5/6 7/8/9")).unwrap();
    assert_eq!(t.get_vertex_indices(), (0, 3, 6));
    assert_eq!(t.get_uv_indices(), (1, 4, 7));
    assert_eq!(t.get_normal_indices(), (2, 5, 8));
}

#[test]
fn only_triangular_faces_are_accepted() {
    assert!(parse_face(&words("1/1/1 2/2/2")).is_none());
    assert!(parse_face(&words("1/1/1 2/2/2 3/3/3 4/4/4")).is_none());
    assert!(parse_face(&words("1/1/1 2/x/2 3/3/3")).is_none());
}

fn lines(text: &str) -> Vec<Vec<Vec<u8>>> {
    text.lines().map(|l| words(l)).collect()
}

#[test]
fn first_reference_line_wins() {
    let text = "# cat\\nmtllib\\nmtllib cat.mtl\\nmtllib other.mtl\\nv 1 2 3";
    let found = find_reference(&lines(&text.replace("\\n", "\n")), &b"mtllib".to_vec());
    assert_eq!(found, Some(b"cat.mtl".to_vec()));
    assert_eq!(find_reference(&lines("v 1 2 3\nf 1/1/1"), &b"map_Kd".to_vec()), None);
}

#[test]
fn sibling_path_keeps_directory() {
    let p = sibling_path(&b"meshes/cat/cat.obj".to_vec(), &b"cat.mtl".to_vec());
    assert_eq!(p, b"meshes/cat/cat.mtl".to_vec());
    let p = sibling_path(&b"cat.obj".to_vec(), &b"cat_diff.tga".to_vec());
    assert_eq!(p, b"cat_diff.tga".to_vec());
    let p = sibling_path(&b"/data/".to_vec(), &b"t.png".to_vec());
    assert_eq!(p, b"/data/t.png".to_vec());
}
