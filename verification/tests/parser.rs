use objviewer::parser::{ObjData, ParseError};

/// The coordinates of a position, as the viewer reads them.
fn pos(p: &[String; 4]) -> [f32; 4] {
    [
        p[0].parse().unwrap(),
        p[1].parse().unwrap(),
        p[2].parse().unwrap(),
        p[3].parse().unwrap(),
    ]
}

fn load(content: &str) -> Result<ObjData, ParseError> {
    ObjData::parse(content.as_bytes())
}

const CUBE: &str = "\
# Unit cube
v 0.0 0.0 0.0
v 1.0 0.0 0.0
v 1.0 1.0 0.0
v 0.0 1.0 0.0
v 0.0 0.0 1.0
v 1.0 0.0 1.0
v 1.0 1.0 1.0
v 0.0 1.0 1.0
vn 0.0 0.0 -1.0
vn 0.0 0.0 1.0
vn 0.0 -1.0 0.0
vn 0.0 1.0 0.0
vn -1.0 0.0 0.0
vn 1.0 0.0 0.0
f 1//1 2//1 3//1
f 1//1 3//1 4//1
f 5//2 7//2 6//2
f 5//2 8//2 7//2
f 1//3 6//3 2//3
f 1//3 5//3 6//3
f 4//4 3//4 7//4
f 4//4 7//4 8//4
f 1//5 4//5 8//5
f 1//5 8//5 5//5
f 2//6 6//6 7//6
f 2//6 7//6 3//6
";

const TRIANGLE: &str = "\
v 0.0 0.0 0.0
v 1.0 0.0 0.0
v 0.5 1.0 0.0
vn 0.0 0.0 1.0
f 1//1 2//1 3//1
";

#[test]
fn test_parse_cube() {
    let result = load(CUBE);
    assert!(result.is_ok(), "Failed to parse cube.obj: {:?}", result.err());

    let obj = result.unwrap();
    assert_eq!(obj.positions.len(), 8, "Cube should have 8 vertices");
    assert_eq!(obj.normals.len(), 6, "Cube should have 6 normals");
    assert_eq!(obj.tex_coords.len(), 0, "Cube has no tex coords");
    assert_eq!(obj.faces.len(), 12, "Cube should have 12 triangular faces");
    assert_eq!(obj.num_faces, 12);
    assert_eq!(obj.num_indices, 12 * 3, "12 faces × 3 vertices = 36 indices");
    assert!(obj.has_normals, "Cube face definitions include normals");

    assert_eq!(pos(&obj.positions[0]), [0.0, 0.0, 0.0, 0.0]);

    let f0 = &obj.faces[0];
    assert_eq!(f0.v_idx, vec![0, 1, 2]);
    assert_eq!(f0.n_idx, vec![0, 0, 0]);
    assert_eq!(f0.tex_idx, vec![-1, -1, -1]);
}

#[test]
fn test_parse_triangle() {
    let result = load(TRIANGLE);
    assert!(result.is_ok(), "Failed to parse triangle.obj: {:?}", result.err());

    let obj = result.unwrap();
    assert_eq!(obj.positions.len(), 3);
    assert_eq!(obj.normals.len(), 1);
    assert_eq!(obj.faces.len(), 1);
    assert_eq!(obj.num_faces, 1);
    assert_eq!(obj.num_indices, 3);
    assert!(obj.has_normals);

    let face = &obj.faces[0];
    assert_eq!(face.v_idx, vec![0, 1, 2]);
    assert_eq!(face.n_idx, vec![0, 0, 0]);
}

#[test]
fn test_face_without_normals() {
    let content = "\
v 0.0 0.0 0.0
v 1.0 0.0 0.0
v 0.5 1.0 0.0
vt 0.0 0.0
vt 1.0 0.0
vt 0.5 1.0
f 1/1 2/2 3/3
";
    let obj = load(content).unwrap();
    assert_eq!(obj.faces.len(), 1);
    assert!(!obj.has_normals);

    let face = &obj.faces[0];
    assert_eq!(face.v_idx, vec![0, 1, 2]);
    assert_eq!(face.tex_idx, vec![0, 1, 2]);
    assert_eq!(face.n_idx, vec![-1, -1, -1]);
}

#[test]
fn test_face_with_normals() {
    let content = "\
v 0.0 0.0 0.0
v 1.0 0.0 0.0
v 0.5 1.0 0.0
vn 0.0 0.0 1.0
vn 0.0 0.0 1.0
vn 0.0 0.0 1.0
f 1//1 2//2 3//3
";
    let obj = load(content).unwrap();
    assert!(obj.has_normals);

    let face = &obj.faces[0];
    assert_eq!(face.v_idx, vec![0, 1, 2]);
    assert_eq!(face.n_idx, vec![0, 1, 2]);
    assert_eq!(face.tex_idx, vec![-1, -1, -1]);
}

#[test]
fn test_negative_indices() {
    let content = "\
v 0.0 0.0 0.0
v 1.0 0.0 0.0
v 0.5 1.0 0.0
vn 0.0 0.0 1.0
vn 0.0 0.0 -1.0
# -1 refers to last vertex (3 → index 2), -2 refers to second-to-last (2 → index 1)
# -1 for normal refers to last normal (2 → index 1)
f -1//-1 -2//-2 -3//-1
";
    let obj = load(content).unwrap();
    assert_eq!(obj.positions.len(), 3);
    assert_eq!(obj.normals.len(), 2);

    let face = &obj.faces[0];
    assert_eq!(face.v_idx, vec![2, 1, 0]);
    assert_eq!(face.n_idx, vec![1, 0, 1]);
}

#[test]
fn test_comment_skipping() {
    let content = "\
# This is a full-line comment
v 0.0 0.0 0.0
# Another comment
v 1.0 0.0 0.0
v 0.5 1.0 0.0
#comment without space
f 1 2 3
";
    let obj = load(content).unwrap();
    assert_eq!(obj.positions.len(), 3);
    assert_eq!(obj.faces.len(), 1);
}

#[test]
fn test_line_continuation() {
    let content = "\
v 0.0 0.0 \\\r
0.0
v 1.0 0.0 0.0
v 0.5 1.0 0.0
f 1 2 3
";
    let obj = load(content).unwrap();
    assert_eq!(obj.positions.len(), 3);
    assert_eq!(pos(&obj.positions[0]), [0.0, 0.0, 0.0, 0.0]);
}

#[test]
fn test_material_ignored() {
    let content = "\
mtllib test.mtl
usemtl red
v 0.0 0.0 0.0
v 1.0 0.0 0.0
v 0.5 1.0 0.0
f 1 2 3
";
    let obj = load(content).unwrap();
    assert_eq!(obj.positions.len(), 3);
    assert_eq!(obj.faces.len(), 1);
}

#[test]
fn test_unsupported_curve_token() {
    let content = "\
v 0.0 0.0 0.0
v 1.0 0.0 0.0
cstype bezier
";
    let result = load(content);
    assert!(result.is_err());
    match result.unwrap_err() {
        ParseError::Unsupported(msg) => {
            assert!(msg.contains("cstype"));
        }
        _ => panic!("Expected Unsupported error"),
    }
}

#[test]
fn test_vertex_with_w() {
    let content = "\
v 1.0 2.0 3.0 4.0
";
    let obj = load(content).unwrap();
    assert_eq!(pos(&obj.positions[0]), [1.0, 2.0, 3.0, 4.0]);
}

// ── Further cases ──

fn parse_message(content: &str) -> String {
    match load(content) {
        Err(ParseError::Parse(m)) => m,
        other => panic!("expected a parse error, got {:?}", other),
    }
}

#[test]
fn three_values_give_w_zero() {
    let obj = load("v 1 2 3\n").unwrap();
    assert_eq!(obj.positions[0][3], "0.0");
    assert_eq!(pos(&obj.positions[0]), [1.0, 2.0, 3.0, 0.0]);
}

#[test]
fn wrong_vertex_count_is_reported() {
    assert_eq!(
        parse_message("v 1 2\n"),
        "Expected 3 or 4 values for vertex position, got 2: 1 2"
    );
    assert_eq!(
        parse_message("vn 1 2 3 4 5 6 7 8 9 10 11\n"),
        "Expected 3 values for vertex normal, got 11: 1 2 3 4 5 6 7 8 9 10 11"
    );
    assert_eq!(
        parse_message("vt 1\n"),
        "Expected 2 values for tex coord, got 1: 1"
    );
}

#[test]
fn invalid_float_is_reported() {
    assert_eq!(parse_message("v 1 x 3\n"), "Invalid float: x");
    assert_eq!(parse_message("vt 1 1e\n"), "Invalid float: 1e");
    assert_eq!(parse_message("vn . 0 0\n"), "Invalid float: .");
}

#[test]
fn float_grammar_matches_std() {
    let obj = load("v -inf +NaN Infinity\nv 1. .5 1E-3 -2e+2\nvt +0 -0.0\n").unwrap();
    assert_eq!(obj.positions.len(), 2);
    assert!(pos(&obj.positions[0])[0].is_infinite());
    assert!(pos(&obj.positions[0])[1].is_nan());
    assert_eq!(pos(&obj.positions[1]), [1.0, 0.5, 0.001, -200.0]);
    assert_eq!(obj.tex_coords.len(), 1);
}

#[test]
fn invalid_indices_are_reported() {
    assert_eq!(parse_message("f a 2 3\n"), "Invalid vertex index: a");
    assert_eq!(parse_message("f 1/x 2 3\n"), "Invalid tex coord index: x");
    assert_eq!(parse_message("f 1//+ 2 3\n"), "Invalid normal index: +");
    assert_eq!(parse_message("f 2147483648\n"), "Invalid vertex index: 2147483648");
}

#[test]
fn index_arithmetic_wraps_like_release_builds() {
    let obj = load("f -2147483648 0\n").unwrap();
    // -2147483648 - 1 wraps to 2147483647; 0 - 1 = -1, then -1 + (0 + 1) = 0.
    assert_eq!(obj.faces[0].v_idx, vec![2147483647, 0]);
}

#[test]
fn extra_slash_pieces_are_ignored() {
    let obj = load("v 0 0 0\nvt 0 0\nvn 0 0 1\nf 1/1/1/9 1//\n").unwrap_err();
    match obj {
        ParseError::Parse(m) => assert_eq!(m, "Invalid normal index: "),
        other => panic!("unexpected {:?}", other),
    }
    let obj = load("v 0 0 0\nvt 0 0\nvn 0 0 1\nf 1/1/1/9\n").unwrap();
    assert_eq!(obj.faces[0].v_idx, vec![0]);
    assert_eq!(obj.faces[0].tex_idx, vec![0]);
    assert_eq!(obj.faces[0].n_idx, vec![0]);
}

#[test]
fn other_statements_are_ignored() {
    let obj = load("o thing\ng group\ns 1\nshadow_obj x\nfoo bar\nv 1 2 3\n").unwrap();
    assert_eq!(obj.positions.len(), 1);
}

#[test]
fn unicode_whitespace_separates_tokens() {
    let obj = load("\u{3000}v\u{a0}1\u{2003}2 3\u{85}\n").unwrap();
    assert_eq!(pos(&obj.positions[0]), [1.0, 2.0, 3.0, 0.0]);
}

#[test]
fn invalid_utf8_is_an_io_error() {
    let bytes: &[u8] = b"v 0 0 0\nv \xff 0 0\n";
    assert!(matches!(ObjData::parse(bytes), Err(ParseError::Io(_))));
}

#[test]
fn fatal_token_before_bad_line_wins() {
    let bytes: &[u8] = b"surf 0 1\n\xff\n";
    assert!(matches!(ObjData::parse(bytes), Err(ParseError::Unsupported(_))));
}

#[test]
fn continuation_at_end_of_file() {
    let obj = load("v 1 2 3 \\\n").unwrap();
    assert_eq!(obj.positions.len(), 1);
    let obj = load("v 1 2 \\\n3\n").unwrap();
    assert_eq!(pos(&obj.positions[0]), [1.0, 2.0, 3.0, 0.0]);
}

#[test]
fn empty_input() {
    let obj = load("").unwrap();
    assert_eq!(obj.positions.len(), 0);
    assert_eq!(obj.num_faces, 0);
    assert_eq!(obj.num_indices, 0);
    assert!(!obj.has_normals);
}

#[test]
fn continuation_in_any_line() {
    let joined = load("v 0 0 0\nv 1 \\\n2 \\\r\n3\nf 1 2\n").unwrap();
    let plain = load("v 0 0 0\nv 1 2 3\nf 1 2\n").unwrap();
    assert_eq!(joined.positions, plain.positions);
    assert_eq!(pos(&joined.positions[1]), [1.0, 2.0, 3.0, 0.0]);
    assert_eq!(joined.faces[0].v_idx, vec![0, 1]);
}

#[test]
fn grouping_statements_are_warned_in_order() {
    let (r, w) = ObjData::parse_with_warnings(
        b"o cube\nmtllib a.mtl\ng side \\\n top\n# s 1\ns off\nshadow_obj x\ntrace_obj y\nv 0 0 0\n",
    );
    assert_eq!(r.unwrap().positions.len(), 1);
    assert_eq!(w, vec!["o", "g", "s", "shadow_obj", "trace_obj"]);
}

#[test]
fn warnings_stop_where_reading_stops() {
    let (r, w) = ObjData::parse_with_warnings(b"g a\nv 1 2\no b\n");
    assert!(matches!(r, Err(ParseError::Parse(_))));
    assert_eq!(w, vec!["g"]);
    let (r, w) = ObjData::parse_with_warnings(b"s 1\n\xff\ng x\n");
    assert!(matches!(r, Err(ParseError::Io(_))));
    assert_eq!(w, vec!["s"]);
}

#[test]
fn counts_follow_keywords() {
    let obj = load("v 0 0 0\nv 1 0 0\n#v 9 9 9\nvt 0 0\nvn 0 0 1\nvn 0 1 0\nv 0 1 0\nf 1/1 2/1 3/1\nf 1 2 3\n").unwrap();
    assert_eq!(obj.positions.len(), 3);
    assert_eq!(obj.tex_coords.len(), 1);
    assert_eq!(obj.normals.len(), 2);
    assert_eq!(obj.faces.len(), 2);
    assert!(!obj.has_normals);
    let obj = load("v 0 0 0\nvn 0 0 1\nf 1 1 1//1\n").unwrap();
    assert!(obj.has_normals);
}

#[test]
fn one_corner_per_face_token() {
    let obj = load("v 0 0 0\nf 1 1 1 1 1\nf 1//\\\n 1 1\nf 1\n").unwrap_err();
    assert!(matches!(obj, ParseError::Parse(_)));
    let obj = load("v 0 0 0\nvt 0 0\nf 1 1 1 1 1\nf 1/1 \\\n 1 1\nf 1\n").unwrap();
    let corners: Vec<usize> = obj.faces.iter().map(|f| f.v_idx.len()).collect();
    assert_eq!(corners, vec![5, 3, 1]);
    for f in &obj.faces {
        assert_eq!(f.n_idx.len(), f.v_idx.len());
        assert_eq!(f.tex_idx.len(), f.v_idx.len());
    }
    assert_eq!(obj.num_indices, 9);
}

#[test]
fn io_error_is_invalid_data() {
    match ObjData::parse(b"v \xc3 0 0\n") {
        Err(ParseError::Io(e)) => assert_eq!(e.kind(), std::io::ErrorKind::InvalidData),
        other => panic!("expected an I/O error, got {:?}", other),
    }
}
