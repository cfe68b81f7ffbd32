use objviewer::mesh::normal_triangles;
use objviewer::parser::{Face, ObjData};

fn s(t: &str) -> String {
    t.to_string()
}

fn make_triangle_obj() -> ObjData {
    ObjData {
        positions: vec![
            [s("0.0"), s("0.0"), s("0.0"), s("0.0")],
            [s("2.0"), s("0.0"), s("0.0"), s("0.0")],
            [s("1.0"), s("2.0"), s("0.0"), s("0.0")],
        ],
        normals: vec![
            [s("0.0"), s("0.0"), s("1.0")],
            [s("0.0"), s("0.0"), s("1.0")],
            [s("0.0"), s("0.0"), s("1.0")],
        ],
        tex_coords: Vec::new(),
        faces: vec![Face {
            v_idx: vec![0, 1, 2],
            n_idx: vec![0, 1, 2],
            tex_idx: vec![-1, -1, -1],
        }],
        has_normals: true,
        num_faces: 1,
        num_indices: 3,
    }
}

fn empty_obj() -> ObjData {
    ObjData {
        positions: Vec::new(),
        normals: Vec::new(),
        tex_coords: Vec::new(),
        faces: Vec::new(),
        has_normals: false,
        num_faces: 0,
        num_indices: 0,
    }
}

#[test]
fn empty_obj_gives_no_indices() {
    let obj = empty_obj();
    assert!(obj.index_buffer().is_empty());
    assert!(!obj.uses_file_normals());
}

#[test]
fn faces_without_positions_give_no_indices() {
    let mut obj = empty_obj();
    obj.faces.push(Face {
        v_idx: vec![0, 1, 2],
        n_idx: vec![-1, -1, -1],
        tex_idx: vec![-1, -1, -1],
    });
    assert!(obj.index_buffer().is_empty());
}

#[test]
fn triangle_index_buffer() {
    let obj = make_triangle_obj();
    assert_eq!(obj.index_buffer(), vec![0, 1, 2]);
}

#[test]
fn file_normals_used_when_counts_match() {
    let obj = make_triangle_obj();
    assert!(obj.uses_file_normals());
}

#[test]
fn normals_generated_without_file_normals() {
    let mut obj = make_triangle_obj();
    obj.has_normals = false;
    assert!(!obj.uses_file_normals());
}

#[test]
fn normals_generated_when_counts_differ() {
    let mut obj = make_triangle_obj();
    obj.normals.pop();
    assert!(!obj.uses_file_normals());
}

#[test]
fn only_first_three_corners_of_a_face_are_used() {
    let obj = ObjData::parse(b"v 0 0 0\nv 1 0 0\nv 1 1 0\nv 0 1 0\nf 1 2 3 4\nf 4 3\n").unwrap();
    assert_eq!(obj.num_indices, 6);
    assert_eq!(obj.index_buffer(), vec![0, 1, 2]);
}

#[test]
fn negative_resolved_indices_are_dropped() {
    let mut obj = make_triangle_obj();
    obj.faces.push(Face {
        v_idx: vec![2, -5, 1, 0],
        n_idx: vec![-1, -1, -1, -1],
        tex_idx: vec![-1, -1, -1, -1],
    });
    assert_eq!(obj.index_buffer(), vec![0, 1, 2, 2, 1]);
}

#[test]
fn cube_index_buffer_has_three_indices_per_face() {
    let mut text = String::new();
    for v in ["0 0 0", "1 0 0", "1 1 0", "0 1 0", "0 0 1", "1 0 1", "1 1 1", "0 1 1"] {
        text.push_str(&format!("v {}\n", v));
    }
    let faces = [
        "1 2 3", "1 3 4", "5 7 6", "5 8 7", "1 6 2", "1 5 6", "4 3 7", "4 7 8", "1 4 8", "1 8 5",
        "2 6 7", "2 7 3",
    ];
    for f in faces {
        text.push_str(&format!("f {}\n", f));
    }
    let obj = ObjData::parse(text.as_bytes()).unwrap();
    let idx = obj.index_buffer();
    assert_eq!(idx.len(), 36);
    assert_eq!(&idx[..6], &[0, 1, 2, 0, 2, 3]);
}

#[test]
fn normal_triangles_take_complete_triples_in_range() {
    let idx = vec![0, 1, 2, 2, 1, 3, 0, 9, 1, 1, 2];
    assert_eq!(normal_triangles(&idx, 4), vec![(0, 1, 2), (2, 1, 3)]);
    assert_eq!(normal_triangles(&idx, 10), vec![(0, 1, 2), (2, 1, 3), (0, 9, 1)]);
    assert_eq!(normal_triangles(&idx, 0), vec![]);
    assert_eq!(normal_triangles(&vec![0, 1], 3), vec![]);
}

#[test]
fn normal_triangles_of_a_triangle() {
    let obj = make_triangle_obj();
    let idx = obj.index_buffer();
    assert_eq!(normal_triangles(&idx, obj.positions.len()), vec![(0, 1, 2)]);
}
