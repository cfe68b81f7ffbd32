//! Wavefront OBJ parser.
//!
//! The file is read as bytes. Each physical line (up to and including its
//! `\n`) must be UTF-8; a line that ends in a backslash before its line break
//! is joined with the next one. Blank lines and `#` comments are skipped.
//! `v`, `vn` and `vt` lines hold 3 or 4, 3 and 2 floating-point numbers, kept
//! here as their decimal text; `f` lines hold `v`, `v/vt`, `v//vn` or
//! `v/vt/vn` references, 1-based and counted from the end of the list when
//! negative, stored 0-based with -1 for "absent". Curve and surface
//! statements are refused; every other statement is ignored.
use vstd::prelude::*;
use vstd::string::*;
use vstd::utf8::*;

use crate::text::{
    chars_of, decimal, eq_str, find_ws, is_float, is_float_literal, parse_i32, parse_int,
    push_chars, push_decimal, split_at_char, split_on, split_whitespace, split_ws, string_of,
    subvec, trim, trim_bounds, ws_index, lemma_split_ws_len,
};

verus! {

/// `std::io::Error`, carried unopened inside `ParseError::Io`.
#[verifier::external_type_specification]
#[verifier::external_body]
pub struct ExIoError(std::io::Error);

/// Why a file could not be read as OBJ.
#[derive(Debug)]
pub enum ParseError {
    /// The file could not be read; here: a line that is not UTF-8.
    Io(std::io::Error),
    /// A statement is malformed.
    Parse(String),
    /// A curve or surface statement, which this viewer does not handle.
    Unsupported(String),
}

/// What a `ParseError` says, with the I/O error's details left out.
pub enum ParseFailure {
    Io,
    Parse(Seq<char>),
    Unsupported(Seq<char>),
}

impl ParseError {
    pub open spec fn failure(&self) -> ParseFailure {
        match self {
            ParseError::Io(_) => ParseFailure::Io,
            ParseError::Parse(m) => ParseFailure::Parse(m@),
            ParseError::Unsupported(m) => ParseFailure::Unsupported(m@),
        }
    }
}

/// One face: 0-based indices into positions, normals and texture
/// coordinates, one entry per corner; -1 where the corner names none.
#[derive(Debug)]
pub struct Face {
    pub v_idx: Vec<i32>,
    pub n_idx: Vec<i32>,
    pub tex_idx: Vec<i32>,
}

/// The contents of an OBJ file. Coordinates are kept as the decimal text
/// that the file gives for them, each one accepted by `str::parse::<f32>`.
#[derive(Debug)]
pub struct ObjData {
    /// `x y z w`; `w` is `"0.0"` where the file gives three values.
    pub positions: Vec<[String; 4]>,
    pub normals: Vec<[String; 3]>,
    pub tex_coords: Vec<[String; 2]>,
    pub faces: Vec<Face>,
    /// Whether some face corner has a third, normal, reference.
    pub has_normals: bool,
    pub num_faces: usize,
    /// Number of face corners over all faces.
    pub num_indices: usize,
}

pub struct FaceModel {
    pub v_idx: Seq<i32>,
    pub n_idx: Seq<i32>,
    pub tex_idx: Seq<i32>,
}

#[verifier::ext_equal]
pub struct ObjModel {
    pub positions: Seq<Seq<Seq<char>>>,
    pub normals: Seq<Seq<Seq<char>>>,
    pub tex_coords: Seq<Seq<Seq<char>>>,
    pub faces: Seq<FaceModel>,
    pub has_normals: bool,
    pub num_indices: nat,
}

impl View for Face {
    type V = FaceModel;

    open spec fn view(&self) -> FaceModel {
        FaceModel { v_idx: self.v_idx@, n_idx: self.n_idx@, tex_idx: self.tex_idx@ }
    }
}

impl View for ObjData {
    type V = ObjModel;

    open spec fn view(&self) -> ObjModel {
        ObjModel {
            positions: self.positions.deep_view(),
            normals: self.normals.deep_view(),
            tex_coords: self.tex_coords.deep_view(),
            faces: self.faces@.map_values(|f: Face| f@),
            has_normals: self.has_normals,
            num_indices: self.num_indices as nat,
        }
    }
}

/// Nothing read yet.
pub open spec fn empty_model() -> ObjModel {
    ObjModel {
        positions: Seq::empty(),
        normals: Seq::empty(),
        tex_coords: Seq::empty(),
        faces: Seq::empty(),
        has_normals: false,
        num_indices: 0,
    }
}

// ───────────────────────────── statements ─────────────────────────────

/// The first of `vals` that is not a floating-point literal.
pub open spec fn first_bad_float(vals: Seq<Seq<char>>) -> Option<Seq<char>>
    decreases vals.len(),
{
    if vals.len() == 0 {
        None
    } else {
        match first_bad_float(vals.drop_last()) {
            Some(b) => Some(b),
            None => if is_float_literal(vals.last()) {
                None
            } else {
                Some(vals.last())
            },
        }
    }
}

pub open spec fn invalid_float(b: Seq<char>) -> ParseFailure {
    ParseFailure::Parse("Invalid float: "@ + b)
}

/// A `v` statement's values: 3 or 4 numbers, `w` defaulting to `0.0`.
pub open spec fn spec_vector4(s: Seq<char>) -> Result<Seq<Seq<char>>, ParseFailure> {
    let vals = split_ws(s);
    if vals.len() == 3 || vals.len() == 4 {
        match first_bad_float(vals) {
            Some(b) => Err(invalid_float(b)),
            None => Ok(
                if vals.len() == 3 {
                    vals.push("0.0"@)
                } else {
                    vals
                },
            ),
        }
    } else {
        Err(
            ParseFailure::Parse(
                "Expected 3 or 4 values for vertex position, got "@ + decimal(vals.len()) + ": "@
                    + s,
            ),
        )
    }
}

/// A `vn` statement's values: exactly 3 numbers.
pub open spec fn spec_vector3(s: Seq<char>) -> Result<Seq<Seq<char>>, ParseFailure> {
    let vals = split_ws(s);
    if vals.len() != 3 {
        Err(
            ParseFailure::Parse(
                "Expected 3 values for vertex normal, got "@ + decimal(vals.len()) + ": "@ + s,
            ),
        )
    } else {
        match first_bad_float(vals) {
            Some(b) => Err(invalid_float(b)),
            None => Ok(vals),
        }
    }
}

/// A `vt` statement's values: exactly 2 numbers.
pub open spec fn spec_vector2(s: Seq<char>) -> Result<Seq<Seq<char>>, ParseFailure> {
    let vals = split_ws(s);
    if vals.len() != 2 {
        Err(
            ParseFailure::Parse(
                "Expected 2 values for tex coord, got "@ + decimal(vals.len()) + ": "@ + s,
            ),
        )
    } else {
        match first_bad_float(vals) {
            Some(b) => Err(invalid_float(b)),
            None => Ok(vals),
        }
    }
}

/// 0-based index of a 1-based reference into a list of `count` entries;
/// a negative reference counts from the end. The arithmetic wraps around
/// at the bounds of `i32`.
pub open spec fn resolve_index(raw: i32, count: nat) -> i32 {
    let i = raw.wrapping_sub(1);
    if i < 0 {
        i.wrapping_add((count as i32).wrapping_add(1))
    } else {
        i
    }
}

/// One corner of an `f` statement: position, texture coordinate and normal
/// index, and whether the corner has a normal reference.
pub open spec fn spec_face_vertex(value: Seq<char>, np: nat, nt: nat, nn: nat) -> Result<
    (i32, i32, i32, bool),
    ParseFailure,
> {
    let pieces = split_on(value, '/');
    match parse_i32(pieces[0]) {
        None => Err(ParseFailure::Parse("Invalid vertex index: "@ + pieces[0])),
        Some(rv) => {
            let v = resolve_index(rv, np);
            if pieces.len() <= 1 {
                Ok((v, -1i32, -1i32, false))
            } else {
                let tex = if pieces[1].len() == 0 {
                    Ok(-1i32)
                } else {
                    match parse_i32(pieces[1]) {
                        None => Err(ParseFailure::Parse("Invalid tex coord index: "@ + pieces[1])),
                        Some(rt) => Ok(resolve_index(rt, nt)),
                    }
                };
                match tex {
                    Err(e) => Err(e),
                    Ok(t) => if pieces.len() <= 2 {
                        Ok((v, t, -1i32, false))
                    } else {
                        match parse_i32(pieces[2]) {
                            None => Err(
                                ParseFailure::Parse("Invalid normal index: "@ + pieces[2]),
                            ),
                            Some(rn) => Ok((v, t, resolve_index(rn, nn), true)),
                        }
                    },
                }
            }
        },
    }
}

/// All corners of an `f` statement, or the error of the first bad one.
pub open spec fn spec_face_vertices(vals: Seq<Seq<char>>, np: nat, nt: nat, nn: nat) -> Result<
    Seq<(i32, i32, i32, bool)>,
    ParseFailure,
>
    decreases vals.len(),
{
    if vals.len() == 0 {
        Ok(Seq::empty())
    } else {
        match spec_face_vertices(vals.drop_last(), np, nt, nn) {
            Err(e) => Err(e),
            Ok(prev) => match spec_face_vertex(vals.last(), np, nt, nn) {
                Err(e) => Err(e),
                Ok(fv) => Ok(prev.push(fv)),
            },
        }
    }
}

pub open spec fn any_normal(fvs: Seq<(i32, i32, i32, bool)>) -> bool {
    exists|i: int| 0 <= i < fvs.len() && (#[trigger] fvs[i]).3
}

/// The model after an `f` statement with text `s` after the keyword.
pub open spec fn spec_face(s: Seq<char>, st: ObjModel) -> Result<ObjModel, ParseFailure> {
    let vals = split_ws(s);
    match spec_face_vertices(
        vals,
        st.positions.len(),
        st.tex_coords.len(),
        st.normals.len(),
    ) {
        Err(e) => Err(e),
        Ok(fvs) => Ok(
            ObjModel {
                faces: st.faces.push(
                    FaceModel {
                        v_idx: fvs.map_values(|fv: (i32, i32, i32, bool)| fv.0),
                        n_idx: fvs.map_values(|fv: (i32, i32, i32, bool)| fv.2),
                        tex_idx: fvs.map_values(|fv: (i32, i32, i32, bool)| fv.1),
                    },
                ),
                has_normals: st.has_normals || any_normal(fvs),
                num_indices: st.num_indices + vals.len(),
                ..st
            },
        ),
    }
}

/// The keywords of curve and surface statements.
pub open spec fn is_fatal_keyword(t: Seq<char>) -> bool {
    ||| t == "cstype"@
    ||| t == "deg"@
    ||| t == "step"@
    ||| t == "bmat"@
    ||| t == "surf"@
    ||| t == "parm"@
    ||| t == "trim"@
    ||| t == "hole"@
    ||| t == "scrv"@
    ||| t == "sp"@
    ||| t == "end"@
    ||| t == "con"@
    ||| t == "vp"@
    ||| t == "bevel"@
    ||| t == "c_interp"@
    ||| t == "d_interp"@
    ||| t == "lod"@
    ||| t == "ctech"@
    ||| t == "stech"@
    ||| t == "mg"@
}

/// The keyword of a trimmed, non-empty statement: up to its first whitespace.
pub open spec fn keyword(t: Seq<char>) -> Seq<char> {
    t.take(ws_index(t))
}

/// The text after the keyword and the one whitespace character that ends it.
pub open spec fn arguments(t: Seq<char>) -> Seq<char> {
    let k = ws_index(t);
    if k < t.len() {
        t.skip(k + 1)
    } else {
        Seq::empty()
    }
}

/// The model after one logical line.
pub open spec fn spec_line(line: Seq<char>, st: ObjModel) -> Result<ObjModel, ParseFailure> {
    let t = trim(line);
    if t.len() == 0 || t[0] == '#' {
        Ok(st)
    } else {
        let kw = keyword(t);
        let rest = arguments(t);
        if kw == "v"@ {
            match spec_vector4(rest) {
                Err(e) => Err(e),
                Ok(p) => Ok(ObjModel { positions: st.positions.push(p), ..st }),
            }
        } else if kw == "vn"@ {
            match spec_vector3(rest) {
                Err(e) => Err(e),
                Ok(n) => Ok(ObjModel { normals: st.normals.push(n), ..st }),
            }
        } else if kw == "vt"@ {
            match spec_vector2(rest) {
                Err(e) => Err(e),
                Ok(t) => Ok(ObjModel { tex_coords: st.tex_coords.push(t), ..st }),
            }
        } else if kw == "f"@ {
            spec_face(rest, st)
        } else if is_fatal_keyword(kw) {
            Err(ParseFailure::Unsupported("fatal error, token not supported: "@ + kw))
        } else {
            Ok(st)
        }
    }
}

// ───────────────────────────── lines ─────────────────────────────

/// End of the physical line that starts at `p`: just past its `\n`, or the
/// end of the input.
pub open spec fn line_end(s: Seq<u8>, p: int) -> int
    decreases s.len() - p,
{
    if p >= s.len() {
        s.len() as int
    } else if s[p] == 10u8 {
        p + 1
    } else {
        line_end(s, p + 1)
    }
}

pub proof fn lemma_line_end(s: Seq<u8>, p: int)
    requires
        0 <= p,
    ensures
        p < s.len() ==> p < line_end(s, p) <= s.len(),
        p >= s.len() ==> line_end(s, p) == s.len(),
    decreases s.len() - p,
{
    if p < s.len() && s[p] != 10u8 {
        lemma_line_end(s, p + 1);
    }
}

/// Number of characters to drop at a line-continuation marker: a backslash
/// followed by `\r\n` or by `\n`.
pub open spec fn continuation_len(l: Seq<char>) -> int {
    let n = l.len() as int;
    if n >= 3 && l[n - 3] == '\\' && l[n - 2] == '\r' && l[n - 1] == '\n' {
        3
    } else if n >= 2 && l[n - 2] == '\\' && l[n - 1] == '\n' {
        2
    } else {
        0
    }
}

/// The logical line that begins with `line`, whose next physical line starts
/// at `p`, with the position after it; `None` where a line it takes in is not
/// UTF-8.
pub open spec fn join_lines(s: Seq<u8>, p: int, line: Seq<char>) -> Option<(Seq<char>, int)>
    decreases s.len() - p,
{
    let k = continuation_len(line);
    if k == 0 {
        Some((line, p))
    } else {
        let stripped = line.take(line.len() - k);
        if p < 0 || p >= s.len() {
            Some((stripped, p))
        } else {
            let e = line_end(s, p);
            let bytes = s.subrange(p, e);
            if !valid_utf8(bytes) {
                None
            } else {
                proof {
                    lemma_line_end(s, p);
                }
                join_lines(s, e, stripped + decode_utf8(bytes))
            }
        }
    }
}

pub proof fn lemma_join_lines_pos(s: Seq<u8>, p: int, line: Seq<char>)
    ensures
        join_lines(s, p, line) is Some ==> p <= join_lines(s, p, line).unwrap().1,
        join_lines(s, p, line) is Some && p <= s.len() ==> join_lines(s, p, line).unwrap().1
            <= s.len(),
    decreases s.len() - p,
{
    if continuation_len(line) != 0 && 0 <= p < s.len() {
        let e = line_end(s, p);
        lemma_line_end(s, p);
        let stripped = line.take(line.len() - continuation_len(line));
        let bytes = s.subrange(p, e);
        if valid_utf8(bytes) {
            lemma_join_lines_pos(s, e, stripped + decode_utf8(bytes));
        }
    }
}

/// The model after the lines from position `p` on, starting from `st`.
pub open spec fn parse_from(s: Seq<u8>, p: int, st: ObjModel) -> Result<ObjModel, ParseFailure>
    decreases s.len() - p,
{
    if p < 0 || p >= s.len() {
        Ok(st)
    } else {
        let e = line_end(s, p);
        let bytes = s.subrange(p, e);
        if !valid_utf8(bytes) {
            Err(ParseFailure::Io)
        } else {
            let joined = join_lines(s, e, decode_utf8(bytes));
            if joined is None {
                Err(ParseFailure::Io)
            } else {
                let (line, q) = joined.unwrap();
                match spec_line(line, st) {
                    Err(x) => Err(x),
                    Ok(st2) => {
                        proof {
                            lemma_line_end(s, p);
                            lemma_join_lines_pos(s, e, decode_utf8(bytes));
                            assert(p < q);
                        }
                        parse_from(s, q, st2)
                    },
                }
            }
        }
    }
}

/// What an OBJ file with contents `s` reads as.
pub open spec fn spec_parse(s: Seq<u8>) -> Result<ObjModel, ParseFailure> {
    parse_from(s, 0, empty_model())
}

/// Keywords of statements that are read past with a warning: object, group,
/// smoothing-group, shadow and ray-tracing statements.
pub open spec fn is_warned_keyword(t: Seq<char>) -> bool {
    ||| t == "o"@
    ||| t == "g"@
    ||| t == "s"@
    ||| t == "shadow_obj"@
    ||| t == "trace_obj"@
}

/// The warning a logical line gives: its keyword, where that is a warned one.
pub open spec fn line_warning(line: Seq<char>) -> Seq<Seq<char>> {
    let t = trim(line);
    if t.len() > 0 && t[0] != '#' && is_warned_keyword(keyword(t)) {
        seq![keyword(t)]
    } else {
        Seq::empty()
    }
}

/// The warnings of the lines read from position `p` on, starting from `st`,
/// in order, up to the line where reading stops.
pub open spec fn warnings_from(s: Seq<u8>, p: int, st: ObjModel) -> Seq<Seq<char>>
    decreases s.len() - p,
{
    if p < 0 || p >= s.len() {
        Seq::empty()
    } else {
        let e = line_end(s, p);
        let bytes = s.subrange(p, e);
        if !valid_utf8(bytes) {
            Seq::empty()
        } else {
            let joined = join_lines(s, e, decode_utf8(bytes));
            if joined is None {
                Seq::empty()
            } else {
                let (line, q) = joined.unwrap();
                match spec_line(line, st) {
                    Err(_) => Seq::empty(),
                    Ok(st2) => {
                        proof {
                            lemma_line_end(s, p);
                            lemma_join_lines_pos(s, e, decode_utf8(bytes));
                        }
                        line_warning(line) + warnings_from(s, q, st2)
                    },
                }
            }
        }
    }
}

/// The warnings that reading an OBJ file with contents `s` gives, each the
/// keyword of its statement, whether or not the reading succeeds.
pub open spec fn spec_warnings(s: Seq<u8>) -> Seq<Seq<char>> {
    warnings_from(s, 0, empty_model())
}

// ───────────────────────────── lemmas ─────────────────────────────

pub proof fn lemma_chars_deep_view(v: Vec<Vec<char>>)
    ensures
        v.deep_view().len() == v@.len(),
        forall|i: int| 0 <= i < v@.len() ==> #[trigger] v.deep_view()[i] == v@[i]@,
{
    assert forall|i: int| 0 <= i < v@.len() implies #[trigger] v.deep_view()[i] == v@[i]@ by {
        assert(v@[i].deep_view() =~= v@[i]@);
    }
}

pub proof fn lemma_first_bad_float_prefix(vals: Seq<Seq<char>>, k: int)
    requires
        0 <= k <= vals.len(),
        first_bad_float(vals.take(k)) is Some,
    ensures
        first_bad_float(vals) == first_bad_float(vals.take(k)),
    decreases vals.len(),
{
    if k < vals.len() {
        assert(vals.drop_last().take(k) =~= vals.take(k));
        lemma_first_bad_float_prefix(vals.drop_last(), k);
    } else {
        assert(vals.take(k) =~= vals);
    }
}

pub proof fn lemma_face_vertices_prefix(vals: Seq<Seq<char>>, k: int, np: nat, nt: nat, nn: nat)
    requires
        0 <= k <= vals.len(),
        spec_face_vertices(vals.take(k), np, nt, nn) is Err,
    ensures
        spec_face_vertices(vals, np, nt, nn) == spec_face_vertices(vals.take(k), np, nt, nn),
    decreases vals.len(),
{
    if k < vals.len() {
        assert(vals.drop_last().take(k) =~= vals.take(k));
        lemma_face_vertices_prefix(vals.drop_last(), k, np, nt, nn);
    } else {
        assert(vals.take(k) =~= vals);
    }
}

pub proof fn lemma_encode_len(chars: Seq<char>)
    ensures
        chars.len() <= encode_utf8(chars).len(),
    decreases chars.len(),
{
    if chars.len() > 0 {
        lemma_encode_len(chars.drop_first());
    }
}

pub proof fn lemma_join_lines_len(s: Seq<u8>, p: int, line: Seq<char>)
    requires
        0 <= p <= s.len(),
    ensures
        join_lines(s, p, line) is Some ==> join_lines(s, p, line).unwrap().0.len() <= line.len()
            + join_lines(s, p, line).unwrap().1 - p,
    decreases s.len() - p,
{
    let k = continuation_len(line);
    if k != 0 && p < s.len() {
        let e = line_end(s, p);
        lemma_line_end(s, p);
        let stripped = line.take(line.len() - k);
        let bytes = s.subrange(p, e);
        if valid_utf8(bytes) {
            vstd::utf8::decode_utf8_encode_utf8(bytes);
            lemma_encode_len(decode_utf8(bytes));
            lemma_join_lines_len(s, e, stripped + decode_utf8(bytes));
        }
    }
}

// ───────────────────────────── trusted calls ─────────────────────────────

/// `std::str::from_utf8`: `Some` exactly when the bytes are valid UTF-8, and
/// then the text whose UTF-8 encoding they are.
#[verifier::external_body]
fn decode_utf8_line(bytes: &[u8]) -> (r: Option<&str>)
    ensures
        r is Some <==> valid_utf8(bytes@),
        r matches Some(t) ==> t.spec_bytes() == bytes@,
{
    std::str::from_utf8(bytes).ok()
}

/// `std::io::Error::new` with kind `InvalidData`, the error that
/// `BufRead::read_line` gives for a line that is not UTF-8. Nothing is stated
/// of the value, which is opaque here.
#[verifier::external_body]
fn invalid_utf8_error() -> std::io::Error {
    std::io::Error::new(std::io::ErrorKind::InvalidData, "stream did not contain valid UTF-8")
}

// ───────────────────────────── parsing ─────────────────────────────

/// Index of the `\n`-terminated physical line end after `p`.
fn find_line_end(content: &[u8], p: usize) -> (e: usize)
    requires
        p < content.len(),
    ensures
        e as int == line_end(content@, p as int),
        p < e <= content.len(),
{
    let mut i = p;
    while i < content.len() && content[i] != 10u8
        invariant
            p <= i <= content.len(),
            line_end(content@, p as int) == line_end(content@, i as int),
        decreases content.len() - i,
    {
        i += 1;
    }
    if i < content.len() {
        i + 1
    } else {
        i
    }
}

/// The characters of `content[p..e]`, or the I/O error when they are not UTF-8.
fn decode_segment(content: &[u8], p: usize, e: usize) -> (r: Option<Vec<char>>)
    requires
        p <= e <= content.len(),
    ensures
        r is Some <==> valid_utf8(content@.subrange(p as int, e as int)),
        r matches Some(v) ==> v@ == decode_utf8(content@.subrange(p as int, e as int)) && v@.len()
            <= e - p,
{
    let seg = &content[p..e];
    match decode_utf8_line(seg) {
        None => None,
        Some(t) => {
            let v = chars_of(t);
            proof {
                vstd::utf8::encode_utf8_decode_utf8(t@);
                lemma_encode_len(t@);
            }
            Some(v)
        },
    }
}

/// Number of characters that a line-continuation marker at the end of `l` takes.
fn continuation_marker(l: &Vec<char>) -> (k: usize)
    ensures
        k as int == continuation_len(l@),
{
    let n = l.len();
    if n >= 3 && l[n - 3] == '\\' && l[n - 2] == '\r' && l[n - 1] == '\n' {
        3
    } else if n >= 2 && l[n - 2] == '\\' && l[n - 1] == '\n' {
        2
    } else {
        0
    }
}

/// Joins `line` with the physical lines from `start` on while it ends in a
/// continuation marker; returns where the next line starts.
fn join_continuations(content: &[u8], start: usize, line: &mut Vec<char>) -> (r: Result<
    usize,
    ParseError,
>)
    requires
        start <= content.len(),
    ensures
        match r {
            Ok(q) => {
                &&& join_lines(content@, start as int, old(line)@) == Some((final(line)@, q as int))
                &&& start <= q <= content.len()
                &&& final(line)@.len() <= old(line)@.len() + (q - start)
            },
            Err(e) => join_lines(content@, start as int, old(line)@) is None && e.failure()
                == ParseFailure::Io,
        },
{
    let mut p = start;
    loop
        invariant
            start <= p <= content.len(),
            join_lines(content@, start as int, old(line)@) == join_lines(
                content@,
                p as int,
                line@,
            ),
            line@.len() <= old(line)@.len() + (p - start),
        decreases content.len() - p,
    {
        let k = continuation_marker(line);
        if k == 0 {
            return Ok(p);
        }
        let keep = line.len() - k;
        line.truncate(keep);
        if p >= content.len() {
            return Ok(p);
        }
        let e = find_line_end(content, p);
        match decode_segment(content, p, e) {
            None => {
                return Err(ParseError::Io(invalid_utf8_error()));
            },
            Some(next) => {
                let ghost before = line@;
                let mut j: usize = 0;
                while j < next.len()
                    invariant
                        j <= next.len(),
                        line@ == before + next@.take(j as int),
                    decreases next.len() - j,
                {
                    line.push(next[j]);
                    j += 1;
                    assert(line@ =~= before + next@.take(j as int));
                }
                assert(next@.take(next.len() as int) =~= next@);
            },
        }
        p = e;
    }
}

/// The `ParseError::Parse` for a token that is not a floating-point literal.
fn invalid_float_error(b: &Vec<char>) -> (e: ParseError)
    ensures
        e.failure() == invalid_float(b@),
{
    let mut m = String::from_str("Invalid float: ");
    push_chars(&mut m, b);
    ParseError::Parse(m)
}

/// `Ok` when every value is a floating-point literal, else the error for
/// the first that is not.
fn check_floats(vals: &Vec<Vec<char>>) -> (r: Result<(), ParseError>)
    ensures
        match r {
            Ok(()) => first_bad_float(vals.deep_view()) is None,
            Err(e) => first_bad_float(vals.deep_view()) matches Some(b) && e.failure()
                == invalid_float(b),
        },
{
    let ghost dv = vals.deep_view();
    proof {
        lemma_chars_deep_view(*vals);
    }
    let mut i: usize = 0;
    while i < vals.len()
        invariant
            i <= vals.len(),
            dv == vals.deep_view(),
            dv.len() == vals@.len(),
            forall|j: int| 0 <= j < vals@.len() ==> #[trigger] dv[j] == vals@[j]@,
            first_bad_float(dv.take(i as int)) is None,
        decreases vals.len() - i,
    {
        proof {
            assert(dv.take(i + 1).drop_last() =~= dv.take(i as int));
            assert(dv.take(i + 1).last() == vals@[i as int]@);
        }
        if !is_float(&vals[i]) {
            proof {
                lemma_first_bad_float_prefix(dv, i + 1);
            }
            return Err(invalid_float_error(&vals[i]));
        }
        i += 1;
    }
    assert(dv.take(vals.len() as int) =~= dv);
    Ok(())
}

/// The error for a statement with the wrong number of values.
fn count_error(prefix: &str, n: usize, s: &Vec<char>) -> (e: ParseError)
    ensures
        e.failure() == ParseFailure::Parse(prefix@ + decimal(n as nat) + ": "@ + s@),
{
    let mut m = String::from_str(prefix);
    push_decimal(&mut m, n);
    m.append(": ");
    push_chars(&mut m, s);
    ParseError::Parse(m)
}

pub proof fn lemma_array_deep_view4(a: [String; 4])
    ensures
        a.deep_view() == seq![a[0]@, a[1]@, a[2]@, a[3]@],
{
    assert(a.deep_view() =~= seq![a[0]@, a[1]@, a[2]@, a[3]@]);
}

pub proof fn lemma_array_deep_view3(a: [String; 3])
    ensures
        a.deep_view() == seq![a[0]@, a[1]@, a[2]@],
{
    assert(a.deep_view() =~= seq![a[0]@, a[1]@, a[2]@]);
}

pub proof fn lemma_array_deep_view2(a: [String; 2])
    ensures
        a.deep_view() == seq![a[0]@, a[1]@],
{
    assert(a.deep_view() =~= seq![a[0]@, a[1]@]);
}

impl ObjData {
    /// Parses 3 or 4 floats from whitespace-separated text; `w` defaults to `0.0`.
    fn parse_vector4(s: &Vec<char>) -> (r: Result<[String; 4], ParseError>)
        ensures
            match r {
                Ok(a) => spec_vector4(s@) == Ok::<Seq<Seq<char>>, ParseFailure>(a.deep_view()),
                Err(e) => spec_vector4(s@) == Err::<Seq<Seq<char>>, ParseFailure>(e.failure()),
            },
    {
        let vals = split_whitespace(s);
        let n = vals.len();
        proof {
            lemma_chars_deep_view(vals);
        }
        if n == 3 || n == 4 {
            match check_floats(&vals) {
                Err(e) => {
                    return Err(e);
                },
                Ok(()) => {},
            }
            let w = if n == 4 {
                string_of(&vals[3])
            } else {
                String::from_str("0.0")
            };
            let a = [string_of(&vals[0]), string_of(&vals[1]), string_of(&vals[2]), w];
            proof {
                lemma_array_deep_view4(a);
                let dv = vals.deep_view();
                if n == 3 {
                    assert(a.deep_view() =~= dv.push("0.0"@));
                } else {
                    assert(a.deep_view() =~= dv);
                }
            }
            Ok(a)
        } else {
            Err(count_error("Expected 3 or 4 values for vertex position, got ", n, s))
        }
    }

    /// Parses exactly 3 floats from whitespace-separated text.
    fn parse_vector3(s: &Vec<char>) -> (r: Result<[String; 3], ParseError>)
        ensures
            match r {
                Ok(a) => spec_vector3(s@) == Ok::<Seq<Seq<char>>, ParseFailure>(a.deep_view()),
                Err(e) => spec_vector3(s@) == Err::<Seq<Seq<char>>, ParseFailure>(e.failure()),
            },
    {
        let vals = split_whitespace(s);
        let n = vals.len();
        proof {
            lemma_chars_deep_view(vals);
        }
        if n != 3 {
            return Err(count_error("Expected 3 values for vertex normal, got ", n, s));
        }
        match check_floats(&vals) {
            Err(e) => {
                return Err(e);
            },
            Ok(()) => {},
        }
        let a = [string_of(&vals[0]), string_of(&vals[1]), string_of(&vals[2])];
        proof {
            lemma_array_deep_view3(a);
            assert(a.deep_view() =~= vals.deep_view());
        }
        Ok(a)
    }

    /// Parses exactly 2 floats from whitespace-separated text.
    fn parse_vector2(s: &Vec<char>) -> (r: Result<[String; 2], ParseError>)
        ensures
            match r {
                Ok(a) => spec_vector2(s@) == Ok::<Seq<Seq<char>>, ParseFailure>(a.deep_view()),
                Err(e) => spec_vector2(s@) == Err::<Seq<Seq<char>>, ParseFailure>(e.failure()),
            },
    {
        let vals = split_whitespace(s);
        let n = vals.len();
        proof {
            lemma_chars_deep_view(vals);
        }
        if n != 2 {
            return Err(count_error("Expected 2 values for tex coord, got ", n, s));
        }
        match check_floats(&vals) {
            Err(e) => {
                return Err(e);
            },
            Ok(()) => {},
        }
        let a = [string_of(&vals[0]), string_of(&vals[1])];
        proof {
            lemma_array_deep_view2(a);
            assert(a.deep_view() =~= vals.deep_view());
        }
        Ok(a)
    }
}

/// 0-based index of a 1-based reference into a list of `count` entries.
fn resolve(raw: i32, count: usize) -> (r: i32)
    ensures
        r == resolve_index(raw, count as nat),
{
    let i = raw.wrapping_sub(1);
    if i < 0 {
        i.wrapping_add((count as i32).wrapping_add(1))
    } else {
        i
    }
}

/// The error for a face reference that is not an integer.
fn index_error(prefix: &str, b: &Vec<char>) -> (e: ParseError)
    ensures
        e.failure() == ParseFailure::Parse(prefix@ + b@),
{
    let mut m = String::from_str(prefix);
    push_chars(&mut m, b);
    ParseError::Parse(m)
}

/// One corner `v`, `v/vt`, `v//vn` or `v/vt/vn` of an `f` statement.
fn parse_face_vertex(value: &Vec<char>, np: usize, nt: usize, nn: usize) -> (r: Result<
    (i32, i32, i32, bool),
    ParseError,
>)
    ensures
        match r {
            Ok(fv) => spec_face_vertex(value@, np as nat, nt as nat, nn as nat) == Ok::<
                (i32, i32, i32, bool),
                ParseFailure,
            >(fv),
            Err(e) => spec_face_vertex(value@, np as nat, nt as nat, nn as nat) == Err::<
                (i32, i32, i32, bool),
                ParseFailure,
            >(e.failure()),
        },
{
    let pieces = split_at_char(value, '/');
    proof {
        lemma_chars_deep_view(pieces);
    }
    let v = match parse_int(&pieces[0]) {
        None => {
            return Err(index_error("Invalid vertex index: ", &pieces[0]));
        },
        Some(raw) => resolve(raw, np),
    };
    if pieces.len() <= 1 {
        return Ok((v, -1, -1, false));
    }
    let t = if pieces[1].len() == 0 {
        -1
    } else {
        match parse_int(&pieces[1]) {
            None => {
                return Err(index_error("Invalid tex coord index: ", &pieces[1]));
            },
            Some(raw) => resolve(raw, nt),
        }
    };
    if pieces.len() <= 2 {
        return Ok((v, t, -1, false));
    }
    match parse_int(&pieces[2]) {
        None => Err(index_error("Invalid normal index: ", &pieces[2])),
        Some(raw) => Ok((v, t, resolve(raw, nn), true)),
    }
}

impl ObjData {
    /// Reads an `f` statement, whose text after the keyword is `rest`.
    fn parse_face(&mut self, rest: &Vec<char>) -> (r: Result<(), ParseError>)
        requires
            old(self).num_indices + rest.len() <= usize::MAX,
        ensures
            final(self).num_faces == old(self).num_faces,
            match r {
                Ok(()) => {
                    &&& spec_face(rest@, old(self)@) == Ok::<ObjModel, ParseFailure>(final(self)@)
                    &&& final(self).num_indices <= old(self).num_indices + rest.len()
                },
                Err(e) => spec_face(rest@, old(self)@) == Err::<ObjModel, ParseFailure>(
                    e.failure(),
                ),
            },
    {
        let vals = split_whitespace(rest);
        let ghost dv = vals.deep_view();
        proof {
            lemma_chars_deep_view(vals);
            lemma_split_ws_len(rest@);
        }
        let np = self.positions.len();
        let nt = self.tex_coords.len();
        let nn = self.normals.len();
        let mut v_idx: Vec<i32> = Vec::new();
        let mut n_idx: Vec<i32> = Vec::new();
        let mut tex_idx: Vec<i32> = Vec::new();
        let mut has_normal = false;
        let ghost mut fvs: Seq<(i32, i32, i32, bool)> = Seq::empty();
        assert(old(self)@.positions.len() == np);
        assert(old(self)@.tex_coords.len() == nt);
        assert(old(self)@.normals.len() == nn);
        let mut i: usize = 0;
        while i < vals.len()
            invariant
                i <= vals.len(),
                *self == *old(self),
                old(self)@.positions.len() == np,
                old(self)@.tex_coords.len() == nt,
                old(self)@.normals.len() == nn,
                dv == split_ws(rest@),
                dv == vals.deep_view(),
                dv.len() == vals@.len(),
                forall|j: int| 0 <= j < vals@.len() ==> #[trigger] dv[j] == vals@[j]@,
                spec_face_vertices(dv.take(i as int), np as nat, nt as nat, nn as nat) == Ok::<
                    Seq<(i32, i32, i32, bool)>,
                    ParseFailure,
                >(fvs),
                fvs.len() == i,
                v_idx@ == fvs.map_values(|fv: (i32, i32, i32, bool)| fv.0),
                tex_idx@ == fvs.map_values(|fv: (i32, i32, i32, bool)| fv.1),
                n_idx@ == fvs.map_values(|fv: (i32, i32, i32, bool)| fv.2),
                has_normal == any_normal(fvs),
            decreases vals.len() - i,
        {
            proof {
                assert(dv.take(i + 1).drop_last() =~= dv.take(i as int));
                assert(dv.take(i + 1).last() == vals@[i as int]@);
            }
            match parse_face_vertex(&vals[i], np, nt, nn) {
                Err(e) => {
                    proof {
                        lemma_face_vertices_prefix(dv, i + 1, np as nat, nt as nat, nn as nat);
                    }
                    return Err(e);
                },
                Ok(fv) => {
                    v_idx.push(fv.0);
                    tex_idx.push(fv.1);
                    n_idx.push(fv.2);
                    proof {
                        let old_fvs = fvs;
                        fvs = fvs.push(fv);
                        assert(v_idx@ =~= fvs.map_values(|fv: (i32, i32, i32, bool)| fv.0));
                        assert(tex_idx@ =~= fvs.map_values(|fv: (i32, i32, i32, bool)| fv.1));
                        assert(n_idx@ =~= fvs.map_values(|fv: (i32, i32, i32, bool)| fv.2));
                        if fv.3 {
                            assert(fvs[i as int].3);
                        }
                        if any_normal(old_fvs) {
                            let w = choose|w: int| 0 <= w < old_fvs.len() && (#[trigger] old_fvs[w]).3;
                            assert(fvs[w] == old_fvs[w]);
                        }
                        if any_normal(fvs) && !fv.3 {
                            let w = choose|w: int| 0 <= w < fvs.len() && (#[trigger] fvs[w]).3;
                            assert(old_fvs[w] == fvs[w]);
                        }
                    }
                    if fv.3 {
                        has_normal = true;
                    }
                },
            }
            i += 1;
        }
        assert(dv.take(vals.len() as int) =~= dv);
        let ghost old_faces = self.faces@;
        let n = vals.len();
        self.num_indices = self.num_indices + n;
        self.has_normals = self.has_normals || has_normal;
        self.faces.push(Face { v_idx, n_idx, tex_idx });
        proof {
            assert(self.faces@.map_values(|f: Face| f@) =~= old(self)@.faces.push(
                FaceModel {
                    v_idx: fvs.map_values(|fv: (i32, i32, i32, bool)| fv.0),
                    n_idx: fvs.map_values(|fv: (i32, i32, i32, bool)| fv.2),
                    tex_idx: fvs.map_values(|fv: (i32, i32, i32, bool)| fv.1),
                },
            ));
        }
        Ok(())
    }
}

/// Whether `kw` is the keyword of a curve or surface statement.
fn is_fatal(kw: &Vec<char>) -> (r: bool)
    ensures
        r == is_fatal_keyword(kw@),
{
    eq_str(kw, "cstype") || eq_str(kw, "deg") || eq_str(kw, "step") || eq_str(kw, "bmat")
        || eq_str(kw, "surf") || eq_str(kw, "parm") || eq_str(kw, "trim") || eq_str(kw, "hole")
        || eq_str(kw, "scrv") || eq_str(kw, "sp") || eq_str(kw, "end") || eq_str(kw, "con")
        || eq_str(kw, "vp") || eq_str(kw, "bevel") || eq_str(kw, "c_interp") || eq_str(
        kw,
        "d_interp",
    ) || eq_str(kw, "lod") || eq_str(kw, "ctech") || eq_str(kw, "stech") || eq_str(kw, "mg")
}

/// The warning of a logical line, as `line_warning` gives it.
fn warning_keyword(line: &Vec<char>) -> (r: Option<String>)
    ensures
        match r {
            None => line_warning(line@).len() == 0,
            Some(w) => line_warning(line@) == seq![w@],
        },
{
    let (lo, hi) = trim_bounds(line);
    let t = subvec(line, lo, hi);
    if t.len() == 0 || t[0] == '#' {
        return None;
    }
    let k = find_ws(&t);
    let kw = subvec(&t, 0, k);
    assert(kw@ =~= keyword(t@));
    if eq_str(&kw, "o") || eq_str(&kw, "g") || eq_str(&kw, "s") || eq_str(&kw, "shadow_obj")
        || eq_str(&kw, "trace_obj") {
        Some(string_of(&kw))
    } else {
        None
    }
}

impl ObjData {
    /// Reads one logical line.
    fn parse_line(&mut self, line: &Vec<char>) -> (r: Result<(), ParseError>)
        requires
            old(self).num_indices + line.len() <= usize::MAX,
        ensures
            final(self).num_faces == old(self).num_faces,
            match r {
                Ok(()) => {
                    &&& spec_line(line@, old(self)@) == Ok::<ObjModel, ParseFailure>(final(self)@)
                    &&& final(self).num_indices <= old(self).num_indices + line.len()
                },
                Err(e) => spec_line(line@, old(self)@) == Err::<ObjModel, ParseFailure>(
                    e.failure(),
                ),
            },
    {
        let (lo, hi) = trim_bounds(line);
        let t = subvec(line, lo, hi);
        if t.len() == 0 || t[0] == '#' {
            return Ok(());
        }
        let k = find_ws(&t);
        let kw = subvec(&t, 0, k);
        let rest = if k < t.len() {
            subvec(&t, k + 1, t.len())
        } else {
            Vec::new()
        };
        proof {
            assert(kw@ =~= keyword(t@));
            assert(rest@ =~= arguments(t@));
        }
        if eq_str(&kw, "v") {
            let p = Self::parse_vector4(&rest)?;
            let ghost before = self.positions.deep_view();
            self.positions.push(p);
            assert(self.positions.deep_view() =~= before.push(p.deep_view()));
            assert(self@ =~= ObjModel { positions: old(self)@.positions.push(p.deep_view()), ..old(self)@ });
            Ok(())
        } else if eq_str(&kw, "vn") {
            let n = Self::parse_vector3(&rest)?;
            let ghost before = self.normals.deep_view();
            self.normals.push(n);
            assert(self.normals.deep_view() =~= before.push(n.deep_view()));
            assert(self@ =~= ObjModel { normals: old(self)@.normals.push(n.deep_view()), ..old(self)@ });
            Ok(())
        } else if eq_str(&kw, "vt") {
            let tc = Self::parse_vector2(&rest)?;
            let ghost before = self.tex_coords.deep_view();
            self.tex_coords.push(tc);
            assert(self.tex_coords.deep_view() =~= before.push(tc.deep_view()));
            assert(self@ =~= ObjModel { tex_coords: old(self)@.tex_coords.push(tc.deep_view()), ..old(self)@ });
            Ok(())
        } else if eq_str(&kw, "f") {
            self.parse_face(&rest)
        } else if is_fatal(&kw) {
            let mut m = String::from_str("fatal error, token not supported: ");
            push_chars(&mut m, &kw);
            Err(ParseError::Unsupported(m))
        } else {
            Ok(())
        }
    }

    /// Reads the contents of an OBJ file.
    pub fn parse(content: &[u8]) -> (r: Result<ObjData, ParseError>)
        ensures
            match r {
                Ok(d) => {
                    &&& spec_parse(content@) == Ok::<ObjModel, ParseFailure>(d@)
                    &&& d.num_faces == d.faces.len()
                },
                Err(e) => spec_parse(content@) == Err::<ObjModel, ParseFailure>(e.failure()),
            },
    {
        let (r, _) = Self::parse_with_warnings(content);
        r
    }

    /// Reads the contents of an OBJ file, and gives the keywords of the
    /// statements read past with a warning, in order, up to where the
    /// reading stopped.
    pub fn parse_with_warnings(content: &[u8]) -> (r: (Result<ObjData, ParseError>, Vec<String>))
        ensures
            match r.0 {
                Ok(d) => {
                    &&& spec_parse(content@) == Ok::<ObjModel, ParseFailure>(d@)
                    &&& d.num_faces == d.faces.len()
                },
                Err(e) => spec_parse(content@) == Err::<ObjModel, ParseFailure>(e.failure()),
            },
            r.1@.map_values(|w: String| w@) == spec_warnings(content@),
    {
        let mut data = ObjData {
            positions: Vec::new(),
            normals: Vec::new(),
            tex_coords: Vec::new(),
            faces: Vec::new(),
            has_normals: false,
            num_faces: 0,
            num_indices: 0,
        };
        let mut warned: Vec<String> = Vec::new();
        assert(data@ =~= empty_model());
        assert(warned@.map_values(|w: String| w@) + spec_warnings(content@) =~= spec_warnings(
            content@,
        ));
        let mut p: usize = 0;
        while p < content.len()
            invariant
                p <= content.len(),
                parse_from(content@, p as int, data@) == spec_parse(content@),
                warned@.map_values(|w: String| w@) + warnings_from(content@, p as int, data@)
                    == spec_warnings(content@),
                data.num_indices <= p,
            decreases content.len() - p,
        {
            let e = find_line_end(content, p);
            let mut line = match decode_segment(content, p, e) {
                None => {
                    assert(warned@.map_values(|w: String| w@) =~= spec_warnings(content@));
                    return (Err(ParseError::Io(invalid_utf8_error())), warned);
                },
                Some(v) => v,
            };
            let q = match join_continuations(content, e, &mut line) {
                Err(err) => {
                    assert(warned@.map_values(|w: String| w@) =~= spec_warnings(content@));
                    return (Err(err), warned);
                },
                Ok(q) => q,
            };
            proof {
                lemma_join_lines_pos(content@, e as int, decode_utf8(content@.subrange(p as int, e as int)));
            }
            let ghost before = data@;
            let ghost seen = warned@.map_values(|w: String| w@);
            match data.parse_line(&line) {
                Err(err) => {
                    assert(warned@.map_values(|w: String| w@) =~= spec_warnings(content@));
                    return (Err(err), warned);
                },
                Ok(()) => {},
            }
            assert(warnings_from(content@, p as int, before) == line_warning(line@)
                + warnings_from(content@, q as int, data@));
            match warning_keyword(&line) {
                None => {
                    assert(line_warning(line@) =~= Seq::<Seq<char>>::empty());
                },
                Some(w) => {
                    warned.push(w);
                    assert(warned@.map_values(|w: String| w@) =~= seen.push(line_warning(line@)[0]));
                },
            }
            assert(warned@.map_values(|w: String| w@) + warnings_from(content@, q as int, data@)
                =~= seen + warnings_from(content@, p as int, before));
            p = q;
        }
        assert(warned@.map_values(|w: String| w@) =~= spec_warnings(content@));
        data.num_faces = data.faces.len();
        (Ok(data), warned)
    }
}

// ───────────────────────────── laws ─────────────────────────────

/// The keywords that statements are told apart by, spelled out.
proof fn lemma_keyword_lengths()
    ensures
        "v"@ == seq!['v'],
        "vn"@ == seq!['v', 'n'],
        "vt"@ == seq!['v', 't'],
        "f"@ == seq!['f'],
        "o"@ == seq!['o'],
        "g"@ == seq!['g'],
        "s"@ == seq!['s'],
        "shadow_obj"@ == seq!['s', 'h', 'a', 'd', 'o', 'w', '_', 'o', 'b', 'j'],
        "trace_obj"@ == seq!['t', 'r', 'a', 'c', 'e', '_', 'o', 'b', 'j'],
        "mtllib"@ == seq!['m', 't', 'l', 'l', 'i', 'b'],
        "usemtl"@ == seq!['u', 's', 'e', 'm', 't', 'l'],
        "cstype"@ == seq!['c', 's', 't', 'y', 'p', 'e'],
        "deg"@ == seq!['d', 'e', 'g'],
        "step"@ == seq!['s', 't', 'e', 'p'],
        "bmat"@ == seq!['b', 'm', 'a', 't'],
        "surf"@ == seq!['s', 'u', 'r', 'f'],
        "parm"@ == seq!['p', 'a', 'r', 'm'],
        "trim"@ == seq!['t', 'r', 'i', 'm'],
        "hole"@ == seq!['h', 'o', 'l', 'e'],
        "scrv"@ == seq!['s', 'c', 'r', 'v'],
        "sp"@ == seq!['s', 'p'],
        "end"@ == seq!['e', 'n', 'd'],
        "con"@ == seq!['c', 'o', 'n'],
        "vp"@ == seq!['v', 'p'],
        "bevel"@ == seq!['b', 'e', 'v', 'e', 'l'],
        "c_interp"@ == seq!['c', '_', 'i', 'n', 't', 'e', 'r', 'p'],
        "d_interp"@ == seq!['d', '_', 'i', 'n', 't', 'e', 'r', 'p'],
        "lod"@ == seq!['l', 'o', 'd'],
        "ctech"@ == seq!['c', 't', 'e', 'c', 'h'],
        "stech"@ == seq!['s', 't', 'e', 'c', 'h'],
        "mg"@ == seq!['m', 'g'],
{
    reveal_strlit("v");
    assert("v"@ =~= seq!['v']);
    reveal_strlit("vn");
    assert("vn"@ =~= seq!['v', 'n']);
    reveal_strlit("vt");
    assert("vt"@ =~= seq!['v', 't']);
    reveal_strlit("f");
    assert("f"@ =~= seq!['f']);
    reveal_strlit("o");
    assert("o"@ =~= seq!['o']);
    reveal_strlit("g");
    assert("g"@ =~= seq!['g']);
    reveal_strlit("s");
    assert("s"@ =~= seq!['s']);
    reveal_strlit("shadow_obj");
    assert("shadow_obj"@ =~= seq!['s', 'h', 'a', 'd', 'o', 'w', '_', 'o', 'b', 'j']);
    reveal_strlit("trace_obj");
    assert("trace_obj"@ =~= seq!['t', 'r', 'a', 'c', 'e', '_', 'o', 'b', 'j']);
    reveal_strlit("mtllib");
    assert("mtllib"@ =~= seq!['m', 't', 'l', 'l', 'i', 'b']);
    reveal_strlit("usemtl");
    assert("usemtl"@ =~= seq!['u', 's', 'e', 'm', 't', 'l']);
    reveal_strlit("cstype");
    assert("cstype"@ =~= seq!['c', 's', 't', 'y', 'p', 'e']);
    reveal_strlit("deg");
    assert("deg"@ =~= seq!['d', 'e', 'g']);
    reveal_strlit("step");
    assert("step"@ =~= seq!['s', 't', 'e', 'p']);
    reveal_strlit("bmat");
    assert("bmat"@ =~= seq!['b', 'm', 'a', 't']);
    reveal_strlit("surf");
    assert("surf"@ =~= seq!['s', 'u', 'r', 'f']);
    reveal_strlit("parm");
    assert("parm"@ =~= seq!['p', 'a', 'r', 'm']);
    reveal_strlit("trim");
    assert("trim"@ =~= seq!['t', 'r', 'i', 'm']);
    reveal_strlit("hole");
    assert("hole"@ =~= seq!['h', 'o', 'l', 'e']);
    reveal_strlit("scrv");
    assert("scrv"@ =~= seq!['s', 'c', 'r', 'v']);
    reveal_strlit("sp");
    assert("sp"@ =~= seq!['s', 'p']);
    reveal_strlit("end");
    assert("end"@ =~= seq!['e', 'n', 'd']);
    reveal_strlit("con");
    assert("con"@ =~= seq!['c', 'o', 'n']);
    reveal_strlit("vp");
    assert("vp"@ =~= seq!['v', 'p']);
    reveal_strlit("bevel");
    assert("bevel"@ =~= seq!['b', 'e', 'v', 'e', 'l']);
    reveal_strlit("c_interp");
    assert("c_interp"@ =~= seq!['c', '_', 'i', 'n', 't', 'e', 'r', 'p']);
    reveal_strlit("d_interp");
    assert("d_interp"@ =~= seq!['d', '_', 'i', 'n', 't', 'e', 'r', 'p']);
    reveal_strlit("lod");
    assert("lod"@ =~= seq!['l', 'o', 'd']);
    reveal_strlit("ctech");
    assert("ctech"@ =~= seq!['c', 't', 'e', 'c', 'h']);
    reveal_strlit("stech");
    assert("stech"@ =~= seq!['s', 't', 'e', 'c', 'h']);
    reveal_strlit("mg");
    assert("mg"@ =~= seq!['m', 'g']);
}

/// Number of corners over all faces.
pub open spec fn corner_count(faces: Seq<FaceModel>) -> nat
    decreases faces.len(),
{
    if faces.len() == 0 {
        0
    } else {
        corner_count(faces.drop_last()) + faces.last().v_idx.len()
    }
}

/// Each face has one texture and one normal index per position index.
pub open spec fn faces_well_formed(faces: Seq<FaceModel>) -> bool {
    forall|i: int|
        0 <= i < faces.len() ==> (#[trigger] faces[i]).n_idx.len() == faces[i].v_idx.len()
            && faces[i].tex_idx.len() == faces[i].v_idx.len()
}

pub open spec fn model_consistent(m: ObjModel) -> bool {
    &&& m.num_indices == corner_count(m.faces)
    &&& faces_well_formed(m.faces)
}

proof fn lemma_face_vertices_len(vals: Seq<Seq<char>>, np: nat, nt: nat, nn: nat)
    ensures
        spec_face_vertices(vals, np, nt, nn) is Ok ==> spec_face_vertices(
            vals,
            np,
            nt,
            nn,
        )->Ok_0.len() == vals.len(),
    decreases vals.len(),
{
    if vals.len() > 0 {
        lemma_face_vertices_len(vals.drop_last(), np, nt, nn);
    }
}

proof fn lemma_line_consistent(line: Seq<char>, st: ObjModel)
    requires
        model_consistent(st),
    ensures
        spec_line(line, st) is Ok ==> model_consistent(spec_line(line, st)->Ok_0),
{
    lemma_keyword_lengths();
    assert("f"@ != "v"@) by {
        assert("f"@[0] != "v"@[0]);
    }
    let t = trim(line);
    if t.len() > 0 && t[0] != '#' && keyword(t) == "f"@ {
        let rest = arguments(t);
        let vals = split_ws(rest);
        lemma_face_vertices_len(vals, st.positions.len(), st.tex_coords.len(), st.normals.len());
        if spec_line(line, st) is Ok {
            let m = spec_line(line, st)->Ok_0;
            assert(m.faces.drop_last() =~= st.faces);
            assert forall|i: int| 0 <= i < m.faces.len() implies (#[trigger] m.faces[i]).n_idx.len()
                == m.faces[i].v_idx.len() && m.faces[i].tex_idx.len() == m.faces[i].v_idx.len() by {
                if i < st.faces.len() {
                    assert(m.faces[i] == st.faces[i]);
                }
            }
        }
    }
}

proof fn lemma_parse_from_consistent(s: Seq<u8>, p: int, st: ObjModel)
    requires
        model_consistent(st),
    ensures
        parse_from(s, p, st) is Ok ==> model_consistent(parse_from(s, p, st)->Ok_0),
    decreases s.len() - p,
{
    if 0 <= p < s.len() {
        let e = line_end(s, p);
        let bytes = s.subrange(p, e);
        if valid_utf8(bytes) {
            let joined = join_lines(s, e, decode_utf8(bytes));
            if joined is Some {
                let (line, q) = joined.unwrap();
                lemma_line_end(s, p);
                lemma_join_lines_pos(s, e, decode_utf8(bytes));
                lemma_line_consistent(line, st);
                if spec_line(line, st) is Ok {
                    lemma_parse_from_consistent(s, q, spec_line(line, st)->Ok_0);
                }
            }
        }
    }
}

/// What a file reads as is consistent: every face has one position, texture
/// and normal index per corner, and `num_indices` is the number of corners
/// over all faces.
pub proof fn law_parsed_model_is_consistent(s: Seq<u8>)
    ensures
        spec_parse(s) is Ok ==> model_consistent(spec_parse(s)->Ok_0),
{
    assert(empty_model().faces.len() == 0);
    lemma_parse_from_consistent(s, 0, empty_model());
}

/// The logical lines of `s` from position `p` on, continuations joined, up
/// to one that is not UTF-8.
pub open spec fn lines_from(s: Seq<u8>, p: int) -> Seq<Seq<char>>
    decreases s.len() - p,
{
    if p < 0 || p >= s.len() {
        Seq::empty()
    } else {
        let e = line_end(s, p);
        let bytes = s.subrange(p, e);
        if !valid_utf8(bytes) {
            Seq::empty()
        } else {
            let joined = join_lines(s, e, decode_utf8(bytes));
            if joined is None {
                Seq::empty()
            } else {
                let (line, q) = joined.unwrap();
                proof {
                    lemma_line_end(s, p);
                    lemma_join_lines_pos(s, e, decode_utf8(bytes));
                }
                seq![line] + lines_from(s, q)
            }
        }
    }
}

/// The first token of a logical line; none for a blank or comment line.
pub open spec fn first_token(line: Seq<char>) -> Seq<char> {
    let t = trim(line);
    if t.len() == 0 || t[0] == '#' {
        Seq::empty()
    } else {
        keyword(t)
    }
}

/// How many of `lines` have first token `kw`.
pub open spec fn count_keyword(lines: Seq<Seq<char>>, kw: Seq<char>) -> nat
    decreases lines.len(),
{
    if lines.len() == 0 {
        0
    } else {
        (if first_token(lines[0]) == kw {
            1nat
        } else {
            0nat
        }) + count_keyword(lines.drop_first(), kw)
    }
}

/// The corner tokens of a statement: the whitespace-separated values after
/// its keyword.
pub open spec fn statement_values(line: Seq<char>) -> Seq<Seq<char>> {
    split_ws(arguments(trim(line)))
}

/// For each of `lines` with first token `f`, in order, its number of corner
/// tokens.
pub open spec fn face_token_counts(lines: Seq<Seq<char>>) -> Seq<nat>
    decreases lines.len(),
{
    if lines.len() == 0 {
        Seq::empty()
    } else {
        (if first_token(lines[0]) == "f"@ {
            seq![statement_values(lines[0]).len()]
        } else {
            Seq::empty()
        }) + face_token_counts(lines.drop_first())
    }
}

/// The number of corners of each face, in order.
pub open spec fn corner_counts(faces: Seq<FaceModel>) -> Seq<nat> {
    faces.map_values(|f: FaceModel| f.v_idx.len())
}

/// A face statement one of whose corners has three or more `/`-separated
/// pieces, the third naming a normal.
pub open spec fn names_normal(line: Seq<char>) -> bool {
    let vals = split_ws(arguments(trim(line)));
    &&& first_token(line) == "f"@
    &&& exists|i: int| 0 <= i < vals.len() && split_on(#[trigger] vals[i], '/').len() >= 3
}

pub open spec fn some_names_normal(lines: Seq<Seq<char>>) -> bool {
    exists|i: int| 0 <= i < lines.len() && names_normal(#[trigger] lines[i])
}

proof fn lemma_face_vertices_normal(vals: Seq<Seq<char>>, np: nat, nt: nat, nn: nat)
    requires
        spec_face_vertices(vals, np, nt, nn) is Ok,
    ensures
        any_normal(spec_face_vertices(vals, np, nt, nn)->Ok_0) <==> exists|i: int|
            0 <= i < vals.len() && split_on(#[trigger] vals[i], '/').len() >= 3,
    decreases vals.len(),
{
    let fvs = spec_face_vertices(vals, np, nt, nn)->Ok_0;
    lemma_face_vertices_len(vals, np, nt, nn);
    if vals.len() > 0 {
        let init = vals.drop_last();
        let prev = spec_face_vertices(init, np, nt, nn)->Ok_0;
        lemma_face_vertices_normal(init, np, nt, nn);
        lemma_face_vertices_len(init, np, nt, nn);
        let last = vals.len() - 1;
        assert(fvs == prev.push(fvs[last]));
        let pieces = split_on(vals[last], '/');
        assert(fvs[last].3 <==> pieces.len() >= 3);
        if any_normal(fvs) {
            let i = choose|i: int| 0 <= i < fvs.len() && (#[trigger] fvs[i]).3;
            if i < last {
                assert(prev[i] == fvs[i]);
                assert(any_normal(prev));
                let j = choose|j: int| 0 <= j < init.len() && split_on(#[trigger] init[j], '/').len() >= 3;
                assert(vals[j] == init[j]);
            } else {
                assert(split_on(vals[last], '/').len() >= 3);
            }
        }
        if exists|i: int| 0 <= i < vals.len() && split_on(#[trigger] vals[i], '/').len() >= 3 {
            let i = choose|i: int| 0 <= i < vals.len() && split_on(#[trigger] vals[i], '/').len() >= 3;
            if i < last {
                assert(init[i] == vals[i]);
                assert(any_normal(prev));
                let j = choose|j: int| 0 <= j < prev.len() && (#[trigger] prev[j]).3;
                assert(fvs[j] == prev[j]);
            } else {
                assert(fvs[last].3);
            }
        }
    }
}

proof fn lemma_line_counts(line: Seq<char>, st: ObjModel)
    requires
        spec_line(line, st) is Ok,
    ensures
        ({
            let st2 = spec_line(line, st)->Ok_0;
            let kw = first_token(line);
            &&& st2.positions.len() == st.positions.len() + if kw == "v"@ { 1int } else { 0int }
            &&& st2.normals.len() == st.normals.len() + if kw == "vn"@ { 1int } else { 0int }
            &&& st2.tex_coords.len() == st.tex_coords.len() + if kw == "vt"@ { 1int } else { 0int }
            &&& st2.faces.len() == st.faces.len() + if kw == "f"@ { 1int } else { 0int }
            &&& corner_counts(st2.faces) == corner_counts(st.faces) + if kw == "f"@ {
                seq![statement_values(line).len()]
            } else {
                Seq::<nat>::empty()
            }
            &&& st2.has_normals == (st.has_normals || names_normal(line))
        }),
{
    lemma_keyword_lengths();
    assert("v"@ != "vn"@) by {
        assert("v"@.len() != "vn"@.len());
    }
    assert("v"@ != "vt"@) by {
        assert("v"@.len() != "vt"@.len());
    }
    assert("vn"@ != "vt"@) by {
        assert("vn"@[1] != "vt"@[1]);
    }
    assert("f"@ != "v"@) by {
        assert("f"@[0] != "v"@[0]);
    }
    assert("f"@ != "vn"@) by {
        assert("f"@.len() != "vn"@.len());
    }
    assert("f"@ != "vt"@) by {
        assert("f"@.len() != "vt"@.len());
    }
    assert(Seq::<char>::empty() != "f"@) by {
        assert("f"@.len() == 1);
    }
    let t = trim(line);
    let st2 = spec_line(line, st)->Ok_0;
    if t.len() > 0 && t[0] != '#' && keyword(t) == "f"@ {
        let vals = split_ws(arguments(t));
        lemma_face_vertices_normal(vals, st.positions.len(), st.tex_coords.len(), st.normals.len());
        lemma_face_vertices_len(vals, st.positions.len(), st.tex_coords.len(), st.normals.len());
        assert(corner_counts(st2.faces) =~= corner_counts(st.faces).push(vals.len()));
        assert(corner_counts(st.faces).push(vals.len()) =~= corner_counts(st.faces) + seq![
            statement_values(line).len(),
        ]);
    } else {
        assert(st2.faces == st.faces);
        assert(corner_counts(st2.faces) =~= corner_counts(st.faces) + Seq::<nat>::empty());
    }
}

proof fn lemma_counts_from(s: Seq<u8>, p: int, st: ObjModel)
    requires
        0 <= p,
    ensures
        parse_from(s, p, st) is Ok ==> {
            let m = parse_from(s, p, st)->Ok_0;
            let lines = lines_from(s, p);
            &&& m.positions.len() == st.positions.len() + count_keyword(lines, "v"@)
            &&& m.normals.len() == st.normals.len() + count_keyword(lines, "vn"@)
            &&& m.tex_coords.len() == st.tex_coords.len() + count_keyword(lines, "vt"@)
            &&& m.faces.len() == st.faces.len() + count_keyword(lines, "f"@)
            &&& corner_counts(m.faces) == corner_counts(st.faces) + face_token_counts(lines)
            &&& m.has_normals == (st.has_normals || some_names_normal(lines))
        },
    decreases s.len() - p,
{
    if p < s.len() && parse_from(s, p, st) is Ok {
        let e = line_end(s, p);
        let bytes = s.subrange(p, e);
        let joined = join_lines(s, e, decode_utf8(bytes));
        let (line, q) = joined.unwrap();
        lemma_line_end(s, p);
        lemma_join_lines_pos(s, e, decode_utf8(bytes));
        lemma_line_counts(line, st);
        let st2 = spec_line(line, st)->Ok_0;
        lemma_counts_from(s, q, st2);
        let rest = lines_from(s, q);
        let lines = lines_from(s, p);
        assert(lines == seq![line] + rest);
        assert(lines[0] == line);
        assert(lines.drop_first() =~= rest);
        let m = parse_from(s, p, st)->Ok_0;
        let here = if first_token(line) == "f"@ {
            seq![statement_values(line).len()]
        } else {
            Seq::<nat>::empty()
        };
        assert(face_token_counts(lines) == here + face_token_counts(rest));
        assert(corner_counts(m.faces) =~= corner_counts(st.faces) + face_token_counts(lines));
        assert(some_names_normal(lines) <==> (names_normal(line) || some_names_normal(rest))) by {
            if some_names_normal(lines) {
                let i = choose|i: int| 0 <= i < lines.len() && names_normal(#[trigger] lines[i]);
                if i > 0 {
                    assert(rest[i - 1] == lines[i]);
                }
            }
            if some_names_normal(rest) {
                let i = choose|i: int| 0 <= i < rest.len() && names_normal(#[trigger] rest[i]);
                assert(lines[i + 1] == rest[i]);
            }
        }
    } else if p >= s.len() {
        assert(lines_from(s, p) =~= Seq::<Seq<char>>::empty());
        assert(!some_names_normal(lines_from(s, p)));
        assert(corner_counts(st.faces) + face_token_counts(lines_from(s, p)) =~= corner_counts(
            st.faces,
        ));
    }
}

/// What a file reads as has one position, normal, texture coordinate and
/// face per logical line with first token `v`, `vn`, `vt` and `f`, each face
/// with one corner per value of its `f` line, and names normals exactly when
/// a face corner has three or more `/`-separated pieces.
pub proof fn law_parsed_counts(s: Seq<u8>)
    ensures
        spec_parse(s) is Ok ==> {
            let m = spec_parse(s)->Ok_0;
            let lines = lines_from(s, 0);
            &&& m.positions.len() == count_keyword(lines, "v"@)
            &&& m.normals.len() == count_keyword(lines, "vn"@)
            &&& m.tex_coords.len() == count_keyword(lines, "vt"@)
            &&& m.faces.len() == count_keyword(lines, "f"@)
            &&& corner_counts(m.faces) == face_token_counts(lines)
            &&& m.has_normals == some_names_normal(lines)
        },
{
    lemma_counts_from(s, 0, empty_model());
    assert(corner_counts(empty_model().faces) + face_token_counts(lines_from(s, 0))
        =~= face_token_counts(lines_from(s, 0)));
}

/// Every one of `vals` is a floating-point literal.
pub open spec fn all_floats(vals: Seq<Seq<char>>) -> bool {
    forall|i: int| 0 <= i < vals.len() ==> is_float_literal(#[trigger] vals[i])
}

proof fn lemma_all_floats_accepted(vals: Seq<Seq<char>>)
    requires
        all_floats(vals),
    ensures
        first_bad_float(vals) is None,
    decreases vals.len(),
{
    if vals.len() > 0 {
        assert(is_float_literal(vals[vals.len() - 1]));
        lemma_all_floats_accepted(vals.drop_last());
    }
}

/// A `v`, `vn` or `vt` statement whose values are all floating-point
/// literals, and of the count that the statement takes, appends exactly its
/// values, in the order the line gives them, to the positions, normals or
/// texture coordinates; a position given three values gets `w` = `0.0`.
/// Nothing else changes.
pub proof fn law_vertex_values_in_file_order(line: Seq<char>, st: ObjModel)
    requires
        trim(line).len() > 0,
        trim(line)[0] != '#',
        all_floats(statement_values(line)),
    ensures
        ({
            let kw = keyword(trim(line));
            let vals = statement_values(line);
            &&& kw == "v"@ && vals.len() == 4 ==> spec_line(line, st) == Ok::<
                ObjModel,
                ParseFailure,
            >(ObjModel { positions: st.positions.push(vals), ..st })
            &&& kw == "v"@ && vals.len() == 3 ==> spec_line(line, st) == Ok::<
                ObjModel,
                ParseFailure,
            >(ObjModel { positions: st.positions.push(seq![vals[0], vals[1], vals[2], "0.0"@]), ..st })
            &&& kw == "vn"@ && vals.len() == 3 ==> spec_line(line, st) == Ok::<
                ObjModel,
                ParseFailure,
            >(ObjModel { normals: st.normals.push(seq![vals[0], vals[1], vals[2]]), ..st })
            &&& kw == "vt"@ && vals.len() == 2 ==> spec_line(line, st) == Ok::<
                ObjModel,
                ParseFailure,
            >(ObjModel { tex_coords: st.tex_coords.push(seq![vals[0], vals[1]]), ..st })
        }),
{
    let vals = statement_values(line);
    lemma_all_floats_accepted(vals);
    lemma_keyword_lengths();
    assert("v"@ != "vn"@) by {
        assert("v"@.len() != "vn"@.len());
    }
    assert("v"@ != "vt"@) by {
        assert("v"@.len() != "vt"@.len());
    }
    assert("vn"@ != "vt"@) by {
        assert("vn"@[1] != "vt"@[1]);
    }
    if vals.len() == 3 {
        assert(vals.push("0.0"@) =~= seq![vals[0], vals[1], vals[2], "0.0"@]);
        assert(vals =~= seq![vals[0], vals[1], vals[2]]);
    }
    if vals.len() == 2 {
        assert(vals =~= seq![vals[0], vals[1]]);
    }
}

/// A corner token whose pieces are integers where they are used: the
/// position piece, a non-empty texture piece, and a normal piece.
pub open spec fn corner_well_formed(value: Seq<char>) -> bool {
    let p = split_on(value, '/');
    &&& parse_i32(p[0]) is Some
    &&& p.len() >= 2 && p[1].len() > 0 ==> parse_i32(p[1]) is Some
    &&& p.len() >= 3 ==> parse_i32(p[2]) is Some
}

/// The position, texture and normal index of a well-formed corner token
/// `a`, `a/b`, `a//c` or `a/b/c`, with `np`, `nt` and `nn` entries of each
/// read so far: the first piece names the position, the second (when not
/// empty) the texture coordinate, the third the normal; -1 where a piece is
/// missing.
pub open spec fn corner_indices(value: Seq<char>, np: nat, nt: nat, nn: nat) -> (i32, i32, i32) {
    let p = split_on(value, '/');
    (
        resolve_index(parse_i32(p[0])->Some_0, np),
        if p.len() >= 2 && p[1].len() > 0 {
            resolve_index(parse_i32(p[1])->Some_0, nt)
        } else {
            -1i32
        },
        if p.len() >= 3 {
            resolve_index(parse_i32(p[2])->Some_0, nn)
        } else {
            -1i32
        },
    )
}

proof fn lemma_face_vertices_well_formed(vals: Seq<Seq<char>>, np: nat, nt: nat, nn: nat)
    requires
        forall|j: int| 0 <= j < vals.len() ==> corner_well_formed(#[trigger] vals[j]),
    ensures
        spec_face_vertices(vals, np, nt, nn) is Ok,
        ({
            let fvs = spec_face_vertices(vals, np, nt, nn)->Ok_0;
            &&& fvs.len() == vals.len()
            &&& forall|j: int|
                0 <= j < vals.len() ==> {
                    let c = corner_indices(vals[j], np, nt, nn);
                    &&& (#[trigger] fvs[j]).0 == c.0
                    &&& fvs[j].1 == c.1
                    &&& fvs[j].2 == c.2
                    &&& fvs[j].3 == (split_on(vals[j], '/').len() >= 3)
                }
        }),
    decreases vals.len(),
{
    if vals.len() > 0 {
        let init = vals.drop_last();
        assert forall|j: int| 0 <= j < init.len() implies corner_well_formed(#[trigger] init[j]) by {
            assert(init[j] == vals[j]);
        }
        lemma_face_vertices_well_formed(init, np, nt, nn);
        let last = vals.len() - 1;
        assert(corner_well_formed(vals[last]));
        let fvs = spec_face_vertices(vals, np, nt, nn)->Ok_0;
        let prev = spec_face_vertices(init, np, nt, nn)->Ok_0;
        assert forall|j: int| 0 <= j < vals.len() implies {
            let c = corner_indices(vals[j], np, nt, nn);
            &&& (#[trigger] fvs[j]).0 == c.0
            &&& fvs[j].1 == c.1
            &&& fvs[j].2 == c.2
            &&& fvs[j].3 == (split_on(vals[j], '/').len() >= 3)
        } by {
            if j < last {
                assert(fvs[j] == prev[j]);
                assert(init[j] == vals[j]);
            }
        }
    }
}

/// An `f` statement whose corner tokens are all well formed adds one face
/// with one corner per token, in order: corner `j` takes its position,
/// texture and normal index from the first, second and third piece of the
/// `j`-th token, each resolved against the positions, texture coordinates
/// and normals read before the line. The faces before stay, the number of
/// corners grows by the number of tokens, and normals are named once some
/// token has a third piece.
pub proof fn law_face_corners(line: Seq<char>, st: ObjModel)
    requires
        trim(line).len() > 0,
        trim(line)[0] != '#',
        keyword(trim(line)) == "f"@,
        forall|j: int|
            0 <= j < statement_values(line).len() ==> corner_well_formed(
                #[trigger] statement_values(line)[j],
            ),
    ensures
        spec_line(line, st) is Ok,
        ({
            let st2 = spec_line(line, st)->Ok_0;
            let vals = statement_values(line);
            let f = st2.faces.last();
            &&& st2.positions == st.positions
            &&& st2.normals == st.normals
            &&& st2.tex_coords == st.tex_coords
            &&& st2.faces.len() == st.faces.len() + 1
            &&& st2.faces.drop_last() == st.faces
            &&& st2.num_indices == st.num_indices + vals.len()
            &&& f.v_idx.len() == vals.len()
            &&& f.tex_idx.len() == vals.len()
            &&& f.n_idx.len() == vals.len()
            &&& forall|j: int|
                0 <= j < vals.len() ==> {
                    let c = corner_indices(
                        vals[j],
                        st.positions.len(),
                        st.tex_coords.len(),
                        st.normals.len(),
                    );
                    &&& #[trigger] f.v_idx[j] == c.0
                    &&& f.tex_idx[j] == c.1
                    &&& f.n_idx[j] == c.2
                }
            &&& st2.has_normals == (st.has_normals || exists|j: int|
                0 <= j < vals.len() && split_on(#[trigger] vals[j], '/').len() >= 3)
        }),
{
    let vals = statement_values(line);
    let np = st.positions.len();
    let nt = st.tex_coords.len();
    let nn = st.normals.len();
    lemma_keyword_lengths();
    assert("f"@ != "v"@) by {
        assert("f"@[0] != "v"@[0]);
    }
    assert("f"@ != "vn"@) by {
        assert("f"@.len() != "vn"@.len());
    }
    assert("f"@ != "vt"@) by {
        assert("f"@.len() != "vt"@.len());
    }
    lemma_face_vertices_well_formed(vals, np, nt, nn);
    lemma_face_vertices_normal(vals, np, nt, nn);
    let fvs = spec_face_vertices(vals, np, nt, nn)->Ok_0;
    let st2 = spec_line(line, st)->Ok_0;
    assert(st2.faces == st.faces.push(st2.faces.last()));
    assert(st2.faces.drop_last() =~= st.faces);
    let f = st2.faces.last();
    assert forall|j: int| 0 <= j < vals.len() implies {
        let c = corner_indices(vals[j], np, nt, nn);
        &&& #[trigger] f.v_idx[j] == c.0
        &&& f.tex_idx[j] == c.1
        &&& f.n_idx[j] == c.2
    } by {
        assert(f.v_idx[j] == fvs[j].0);
        assert(f.tex_idx[j] == fvs[j].1);
        assert(f.n_idx[j] == fvs[j].2);
    }
}

/// An object, group, smoothing-group, shadow or ray-tracing statement warns
/// with its keyword; a line with any other keyword, a blank line and a
/// comment warn with nothing.
pub proof fn law_warned_statements(line: Seq<char>)
    ensures
        ({
            let t = trim(line);
            let kw = keyword(t);
            line_warning(line) == if t.len() > 0 && t[0] != '#' && (kw == "o"@ || kw == "g"@
                || kw == "s"@ || kw == "shadow_obj"@ || kw == "trace_obj"@) {
                seq![kw]
            } else {
                Seq::<Seq<char>>::empty()
            }
        }),
{
}

/// A positive reference `k` names entry `k - 1`: references are 1-based.
pub proof fn law_positive_reference_is_one_based(k: i32, count: nat)
    requires
        k >= 1,
    ensures
        resolve_index(k, count) == k - 1,
{
}

/// A negative reference `-k` names the `k`-th entry from the end of the list
/// read so far.
pub proof fn law_negative_reference_counts_from_end(k: i32, count: nat)
    requires
        1 <= k <= count,
        count < i32::MAX,
    ensures
        resolve_index(-k as i32, count) == count - k,
{
    assert((count as i32) == count);
}

/// Blank lines and comment lines leave what has been read unchanged.
pub proof fn law_comments_change_nothing(line: Seq<char>, st: ObjModel)
    requires
        trim(line).len() == 0 || trim(line)[0] == '#',
    ensures
        spec_line(line, st) == Ok::<ObjModel, ParseFailure>(st),
{
}

/// Object, group, smoothing-group, shadow, ray-tracing and material
/// statements are skipped without error.
pub proof fn law_grouping_and_material_statements_are_skipped(line: Seq<char>, st: ObjModel)
    requires
        trim(line).len() > 0,
        trim(line)[0] != '#',
        keyword(trim(line)) == "o"@ || keyword(trim(line)) == "g"@ || keyword(trim(line)) == "s"@
            || keyword(trim(line)) == "shadow_obj"@ || keyword(trim(line)) == "trace_obj"@
            || keyword(trim(line)) == "mtllib"@ || keyword(trim(line)) == "usemtl"@,
    ensures
        spec_line(line, st) == Ok::<ObjModel, ParseFailure>(st),
{
    lemma_keyword_lengths();
    assert("o"@ != "v"@) by {
        assert("o"@[0] != "v"@[0]);
    }
    assert("g"@ != "v"@) by {
        assert("g"@[0] != "v"@[0]);
    }
    assert("s"@ != "v"@) by {
        assert("s"@[0] != "v"@[0]);
    }
    assert("o"@ != "f"@) by {
        assert("o"@[0] != "f"@[0]);
    }
    assert("g"@ != "f"@) by {
        assert("g"@[0] != "f"@[0]);
    }
    assert("s"@ != "f"@) by {
        assert("s"@[0] != "f"@[0]);
    }
    assert("mtllib"@ != "cstype"@) by {
        assert("mtllib"@[0] != "cstype"@[0]);
    }
    assert("usemtl"@ != "cstype"@) by {
        assert("usemtl"@[0] != "cstype"@[0]);
    }
}

/// A curve or surface statement stops the reading with `Unsupported`, whose
/// message names the keyword.
pub proof fn law_curve_and_surface_statements_are_refused(line: Seq<char>, st: ObjModel)
    requires
        trim(line).len() > 0,
        trim(line)[0] != '#',
        is_fatal_keyword(keyword(trim(line))),
    ensures
        spec_line(line, st) == Err::<ObjModel, ParseFailure>(
            ParseFailure::Unsupported("fatal error, token not supported: "@ + keyword(trim(line))),
        ),
{
    lemma_keyword_lengths();
    assert("vp"@ != "vn"@) by {
        assert("vp"@[1] != "vn"@[1]);
    }
    assert("vp"@ != "vt"@) by {
        assert("vp"@[1] != "vt"@[1]);
    }
    assert("sp"@ != "vn"@) by {
        assert("sp"@[0] != "vn"@[0]);
    }
    assert("sp"@ != "vt"@) by {
        assert("sp"@[0] != "vt"@[0]);
    }
}

// ──────────────────────── line continuation ────────────────────────

proof fn lemma_encode_concat(a: Seq<char>, b: Seq<char>)
    ensures
        encode_utf8(a + b) == encode_utf8(a) + encode_utf8(b),
    decreases a.len(),
{
    if a.len() == 0 {
        assert(a + b =~= b);
        assert(encode_utf8(a) + encode_utf8(b) =~= encode_utf8(b));
    } else {
        lemma_encode_concat(a.drop_first(), b);
        assert((a + b).drop_first() =~= a.drop_first() + b);
        assert((a + b)[0] == a[0]);
        assert(encode_utf8(a + b) =~= encode_utf8(a) + encode_utf8(b));
    }
}

proof fn lemma_encode_ascii(c: char)
    requires
        (c as u32) < 0x80,
    ensures
        encode_utf8(seq![c]) == seq![c as u32 as u8],
{
    let u = c as u32;
    assert((u & 0x7F) as u8 == u as u8) by (bit_vector)
        requires
            u < 0x80,
    ;
    reveal_with_fuel(encode_utf8, 2);
    assert(seq![c].drop_first() =~= Seq::<char>::empty());
    assert(encode_utf8(seq![c]) =~= seq![c as u32 as u8]);
}

/// The text of valid UTF-8 without a `\n` byte does not end in `\n`.
proof fn lemma_no_newline_char(x: Seq<u8>)
    requires
        valid_utf8(x),
        forall|i: int| 0 <= i < x.len() ==> x[i] != 10u8,
    ensures
        decode_utf8(x).len() == 0 || decode_utf8(x).last() != '\n',
{
    let c = decode_utf8(x);
    vstd::utf8::decode_utf8_encode_utf8(x);
    if c.len() > 0 && c.last() == '\n' {
        let init = c.drop_last();
        assert(init + seq!['\n'] =~= c);
        lemma_encode_concat(init, seq!['\n']);
        lemma_encode_ascii('\n');
        assert(x[x.len() - 1] == 10u8);
    }
}

/// `decode(x ++ tail)` for valid `x`: the text of `x` followed by that of
/// `tail`, or invalid together with `tail`.
proof fn lemma_decode_concat(x: Seq<u8>, tail: Seq<u8>)
    requires
        valid_utf8(x),
    ensures
        valid_utf8(x + tail) == valid_utf8(tail),
        valid_utf8(tail) ==> decode_utf8(x + tail) == decode_utf8(x) + decode_utf8(tail),
{
    if valid_utf8(tail) {
        vstd::utf8::decode_utf8_encode_utf8(x);
        vstd::utf8::decode_utf8_encode_utf8(tail);
        lemma_encode_concat(decode_utf8(x), decode_utf8(tail));
        vstd::utf8::encode_utf8_valid_utf8(decode_utf8(x) + decode_utf8(tail));
        vstd::utf8::encode_utf8_decode_utf8(decode_utf8(x) + decode_utf8(tail));
    } else {
        let b = x + tail;
        assert(b.subrange(0, x.len() as int) =~= x);
        assert(b.subrange(x.len() as int, b.len() as int) =~= tail);
        vstd::utf8::partial_valid_partial_invalid_utf8(b, x.len() as int);
    }
}

proof fn lemma_line_end_shift(a: Seq<u8>, b: Seq<u8>, k: int)
    requires
        0 <= k,
    ensures
        line_end(a + b, a.len() + k) == a.len() + line_end(b, k),
    decreases b.len() - k,
{
    if k < b.len() {
        assert((a + b)[a.len() + k] == b[k]);
        if b[k] != 10u8 {
            lemma_line_end_shift(a, b, k + 1);
        }
    }
}

proof fn lemma_line_end_no_newline(a: Seq<u8>, b: Seq<u8>, k: int)
    requires
        0 <= k <= a.len(),
        forall|i: int| 0 <= i < a.len() ==> a[i] != 10u8,
    ensures
        line_end(a + b, k) == a.len() + line_end(b, 0),
    decreases a.len() - k,
{
    if k < a.len() {
        assert((a + b)[k] == a[k]);
        lemma_line_end_no_newline(a, b, k + 1);
    } else {
        lemma_line_end_shift(a, b, 0);
    }
}

proof fn lemma_join_shift(a: Seq<u8>, b: Seq<u8>, k: int, line: Seq<char>)
    requires
        0 <= k,
    ensures
        join_lines(a + b, a.len() + k, line) == match join_lines(b, k, line) {
            Some((l, q)) => Some((l, q + a.len())),
            None => None::<(Seq<char>, int)>,
        },
    decreases b.len() - k,
{
    let s = a + b;
    let p = a.len() + k;
    let c = continuation_len(line);
    if c != 0 && k < b.len() {
        lemma_line_end_shift(a, b, k);
        lemma_line_end(b, k);
        let e = line_end(b, k);
        assert(s.subrange(p, a.len() + e) =~= b.subrange(k, e));
        let bytes = b.subrange(k, e);
        if valid_utf8(bytes) {
            lemma_join_shift(a, b, e, line.take(line.len() - c) + decode_utf8(bytes));
        }
    }
}

proof fn lemma_parse_from_shift(a: Seq<u8>, b: Seq<u8>, k: int, st: ObjModel)
    requires
        0 <= k,
    ensures
        parse_from(a + b, a.len() + k, st) == parse_from(b, k, st),
    decreases b.len() - k,
{
    let s = a + b;
    let p = a.len() + k;
    if k < b.len() {
        lemma_line_end_shift(a, b, k);
        lemma_line_end(b, k);
        let e = line_end(b, k);
        assert(s.subrange(p, a.len() + e) =~= b.subrange(k, e));
        let bytes = b.subrange(k, e);
        if valid_utf8(bytes) {
            lemma_join_shift(a, b, e, decode_utf8(bytes));
            let joined = join_lines(b, e, decode_utf8(bytes));
            if joined is Some {
                let (line, q) = joined.unwrap();
                lemma_join_lines_pos(b, e, decode_utf8(bytes));
                if spec_line(line, st) is Ok {
                    lemma_parse_from_shift(a, b, q, spec_line(line, st)->Ok_0);
                }
            }
        }
    }
}

/// The continuation marker: a backslash and a line break, `\r\n` or `\n`.
pub open spec fn continuation_marker_bytes(crlf: bool) -> Seq<u8> {
    if crlf {
        seq![92u8, 13u8, 10u8]
    } else {
        seq![92u8, 10u8]
    }
}

/// The text of the continuation marker.
pub open spec fn continuation_marker_chars(crlf: bool) -> Seq<char> {
    if crlf {
        seq!['\\', '\r', '\n']
    } else {
        seq!['\\', '\n']
    }
}

proof fn lemma_marker_text(crlf: bool)
    ensures
        valid_utf8(continuation_marker_bytes(crlf)),
        decode_utf8(continuation_marker_bytes(crlf)) == continuation_marker_chars(crlf),
        forall|y: Seq<u8>|
            line_end(#[trigger] (continuation_marker_bytes(crlf) + y), 0)
                == continuation_marker_bytes(crlf).len(),
{
    let m = continuation_marker_bytes(crlf);
    let mc = continuation_marker_chars(crlf);
    if crlf {
        assert(mc =~= seq!['\\'] + seq!['\r'] + seq!['\n']);
        lemma_encode_ascii('\\');
        lemma_encode_ascii('\r');
        lemma_encode_ascii('\n');
        lemma_encode_concat(seq!['\\'], seq!['\r']);
        lemma_encode_concat(seq!['\\'] + seq!['\r'], seq!['\n']);
    } else {
        assert(mc =~= seq!['\\'] + seq!['\n']);
        lemma_encode_ascii('\\');
        lemma_encode_ascii('\n');
        lemma_encode_concat(seq!['\\'], seq!['\n']);
    }
    assert(encode_utf8(mc) =~= m);
    vstd::utf8::encode_utf8_valid_utf8(mc);
    vstd::utf8::encode_utf8_decode_utf8(mc);
    assert forall|y: Seq<u8>| line_end(#[trigger] (m + y), 0) == m.len() by {
        reveal_with_fuel(line_end, 4);
        assert((m + y)[0] == 92u8);
        if crlf {
            assert((m + y)[1] == 13u8);
            assert((m + y)[2] == 10u8);
        } else {
            assert((m + y)[1] == 10u8);
        }
    }
}

/// The left side's first logical line: `x`'s text, the marker dropped, joined
/// with what follows.
proof fn lemma_marked_first_line(x: Seq<u8>, y: Seq<u8>, crlf: bool)
    requires
        valid_utf8(x),
        forall|i: int| 0 <= i < x.len() ==> x[i] != 10u8,
    ensures
        ({
            let m = continuation_marker_bytes(crlf);
            let lhs = x + m + y;
            let e1 = (x.len() + m.len()) as int;
            &&& line_end(lhs, 0) == e1
            &&& valid_utf8(lhs.subrange(0, e1))
            &&& join_lines(lhs, e1, decode_utf8(lhs.subrange(0, e1))) == if y.len() == 0 {
                Some((decode_utf8(x), e1))
            } else {
                let ey = line_end(y, 0);
                let y1 = y.subrange(0, ey);
                if !valid_utf8(y1) {
                    None
                } else {
                    join_lines(lhs, e1 + ey, decode_utf8(x) + decode_utf8(y1))
                }
            }
        }),
{
    let m = continuation_marker_bytes(crlf);
    let mc = continuation_marker_chars(crlf);
    let xm = x + m;
    let lhs = xm + y;
    let dx = decode_utf8(x);
    let e1: int = (x.len() + m.len()) as int;
    lemma_marker_text(crlf);
    lemma_line_end_no_newline(x, m + y, 0);
    assert(x + (m + y) =~= lhs);
    assert(line_end(m + y, 0) == m.len());
    assert(lhs.subrange(0, e1) =~= xm);
    lemma_decode_concat(x, m);
    let first = dx + mc;
    assert(continuation_len(first) == mc.len());
    assert(first.take(first.len() - mc.len()) =~= dx);
    if y.len() > 0 {
        let ey = line_end(y, 0);
        lemma_line_end(y, 0);
        lemma_line_end_shift(xm, y, 0);
        assert(lhs.subrange(e1, e1 + ey) =~= y.subrange(0, ey));
    } else {
        assert(lhs.len() == e1);
    }
}

/// Read from a line start, in any state: the marker after the text `x` of
/// the first physical line can be removed.
#[verifier::spinoff_prover]
#[verifier::rlimit(40)]
proof fn lemma_continuation_at_line_start(x: Seq<u8>, y: Seq<u8>, crlf: bool, st: ObjModel)
    requires
        valid_utf8(x),
        forall|i: int| 0 <= i < x.len() ==> x[i] != 10u8,
    ensures
        parse_from(x + continuation_marker_bytes(crlf) + y, 0, st) == parse_from(x + y, 0, st),
{
    let m = continuation_marker_bytes(crlf);
    let xm = x + m;
    let lhs = xm + y;
    let rhs = x + y;
    let dx = decode_utf8(x);
    let e1: int = (x.len() + m.len()) as int;
    lemma_marked_first_line(x, y, crlf);
    lemma_line_end(lhs, 0);
    if y.len() == 0 {
        assert(rhs =~= x);
        assert(lhs.len() == e1);
        let r = spec_line(dx, st);
        if r is Ok {
            assert(parse_from(lhs, e1, r->Ok_0) == Ok::<ObjModel, ParseFailure>(r->Ok_0));
        }
        assert(parse_from(lhs, 0, st) == match r {
            Err(f) => Err::<ObjModel, ParseFailure>(f),
            Ok(st2) => Ok(st2),
        });
        if x.len() > 0 {
            lemma_no_newline_char(x);
            lemma_line_end_no_newline(x, Seq::<u8>::empty(), 0);
            assert(x + Seq::<u8>::empty() =~= x);
            assert(rhs.subrange(0, x.len() as int) =~= x);
            assert(continuation_len(dx) == 0);
            assert(join_lines(rhs, x.len() as int, dx) == Some((dx, x.len() as int)));
            if r is Ok {
                assert(parse_from(rhs, x.len() as int, r->Ok_0) == Ok::<ObjModel, ParseFailure>(
                    r->Ok_0,
                ));
            }
            assert(parse_from(rhs, 0, st) == match r {
                Err(f) => Err::<ObjModel, ParseFailure>(f),
                Ok(st2) => Ok(st2),
            });
        } else {
            reveal_with_fuel(decode_utf8, 1);
            assert(dx.len() == 0);
            assert(trim(dx) =~= dx);
            assert(r == Ok::<ObjModel, ParseFailure>(st));
        }
    } else {
        let ey = line_end(y, 0);
        lemma_line_end(y, 0);
        let y1 = y.subrange(0, ey);
        lemma_line_end_no_newline(x, y, 0);
        assert(line_end(rhs, 0) == x.len() + ey);
        assert(rhs.subrange(0, x.len() + ey) =~= x + y1);
        lemma_decode_concat(x, y1);
        if valid_utf8(y1) {
            let line = dx + decode_utf8(y1);
            lemma_join_shift(xm, y, ey, line);
            lemma_join_shift(x, y, ey, line);
            assert(xm.len() + ey == e1 + ey);
            let joined = join_lines(y, ey, line);
            assert(join_lines(lhs, e1 + ey, line) == match joined {
                Some((l, q)) => Some((l, q + xm.len())),
                None => None::<(Seq<char>, int)>,
            });
            assert(join_lines(rhs, x.len() + ey, line) == match joined {
                Some((l, q)) => Some((l, q + x.len())),
                None => None::<(Seq<char>, int)>,
            });
            if joined is Some {
                let (l, q) = joined.unwrap();
                lemma_join_lines_pos(y, ey, line);
                let r = spec_line(l, st);
                if r is Ok {
                    let st2 = r->Ok_0;
                    lemma_parse_from_shift(xm, y, q, st2);
                    lemma_parse_from_shift(x, y, q, st2);
                    assert(parse_from(lhs, 0, st) == parse_from(y, q, st2));
                    assert(parse_from(rhs, 0, st) == parse_from(y, q, st2));
                } else {
                    assert(parse_from(lhs, 0, st) == r);
                    assert(parse_from(rhs, 0, st) == r);
                }
            } else {
                assert(parse_from(lhs, 0, st) == Err::<ObjModel, ParseFailure>(ParseFailure::Io));
                assert(parse_from(rhs, 0, st) == Err::<ObjModel, ParseFailure>(ParseFailure::Io));
            }
        } else {
            assert(parse_from(lhs, 0, st) == Err::<ObjModel, ParseFailure>(ParseFailure::Io));
            assert(parse_from(rhs, 0, st) == Err::<ObjModel, ParseFailure>(ParseFailure::Io));
        }
    }
}


/// Where a continuation marker can stand: after the text `x` of a physical
/// line that begins where `p` ends. `x` is UTF-8 and has no line break.
pub open spec fn continuation_site(p: Seq<u8>, x: Seq<u8>) -> bool {
    &&& (p.len() == 0 || p.last() == 10u8)
    &&& valid_utf8(x)
    &&& forall|i: int| 0 <= i < x.len() ==> x[i] != 10u8
}

/// A physical line that starts inside `p`, which ends with a line break,
/// ends inside `p` too, whatever follows.
proof fn lemma_line_end_prefix(p: Seq<u8>, r: Seq<u8>, i: int)
    requires
        0 <= i < p.len(),
        p.last() == 10u8,
    ensures
        line_end(p + r, i) == line_end(p, i),
        i < line_end(p, i) <= p.len(),
    decreases p.len() - i,
{
    assert((p + r)[i] == p[i]);
    if p[i] != 10u8 {
        assert(i != p.len() - 1);
        lemma_line_end_prefix(p, r, i + 1);
    }
}

/// The joined line that reaches the marker's line, as `lemma_join_lockstep`
/// states it, for `e` at the start of that line.
proof fn lemma_join_at_marker_line(p: Seq<u8>, x: Seq<u8>, y: Seq<u8>, crlf: bool, line: Seq<char>)
    requires
        continuation_site(p, x),
        continuation_len(line) != 0,
    ensures
        ({
            let m = continuation_marker_bytes(crlf);
            let j1 = join_lines(p + x + m + y, p.len() as int, line);
            let j2 = join_lines(p + x + y, p.len() as int, line);
            &&& j1 is None <==> j2 is None
            &&& j1 is Some ==> {
                &&& j1.unwrap().0 == j2.unwrap().0
                &&& j1.unwrap().1 == j2.unwrap().1 + m.len()
                &&& j2.unwrap().1 >= p.len() + x.len()
            }
        }),
{
    let m = continuation_marker_bytes(crlf);
    let mc = continuation_marker_chars(crlf);
    let a1 = p + x + m;
    let a2 = p + x;
    let s1 = a1 + y;
    let s2 = a2 + y;
    let n = p.len() as int;
    let st = line.take(line.len() - continuation_len(line));
    let dx = decode_utf8(x);
    lemma_marker_text(crlf);
    // With the marker: the line `x` and its marker, then `y`.
    assert(s1 =~= p + (x + (m + y)));
    lemma_line_end_shift(p, x + (m + y), 0);
    lemma_line_end_no_newline(x, m + y, 0);
    assert(line_end(s1, n) == a1.len());
    assert(s1.subrange(n, a1.len() as int) =~= x + m);
    lemma_decode_concat(x, m);
    let l1 = st + (dx + mc);
    assert(continuation_len(l1) == m.len());
    assert(l1.take(l1.len() - m.len()) =~= st + dx);
    assert(join_lines(s1, n, line) == join_lines(s1, a1.len() as int, l1));
    lemma_join_shift(a1, y, 0, l1);
    assert(a1.len() + 0 == a1.len());
    if y.len() == 0 {
        assert(join_lines(s1, n, line) == Some((st + dx, a1.len() as int)));
        if x.len() == 0 {
            assert(s2.len() == n);
            reveal_with_fuel(decode_utf8, 1);
            assert(st + dx =~= st);
        } else {
            assert(s2 =~= p + (x + y));
            lemma_line_end_shift(p, x + y, 0);
            lemma_line_end_no_newline(x, y, 0);
            assert(x + y =~= x);
            assert(line_end(s2, n) == n + x.len());
            assert(s2.subrange(n, n + x.len()) =~= x);
            lemma_no_newline_char(x);
            vstd::utf8::decode_utf8_encode_utf8(x);
            assert(dx.len() > 0);
            let l2 = st + dx;
            assert(l2.last() == dx.last());
            assert(continuation_len(l2) == 0);
            assert(join_lines(s2, n, line) == join_lines(s2, n + x.len(), l2));
            assert(join_lines(s2, n + x.len(), l2) == Some((l2, n + x.len())));
        }
    } else {
        let ey = line_end(y, 0);
        lemma_line_end(y, 0);
        let y1 = y.subrange(0, ey);
        assert(s2 =~= p + (x + y));
        lemma_line_end_shift(p, x + y, 0);
        lemma_line_end_no_newline(x, y, 0);
        assert(line_end(s2, n) == n + x.len() + ey);
        assert(s2.subrange(n, n + x.len() + ey) =~= x + y1);
        lemma_decode_concat(x, y1);
        if valid_utf8(y1) {
            let lc = st + dx + decode_utf8(y1);
            assert(st + (dx + decode_utf8(y1)) =~= lc);
            assert(l1.take(l1.len() - m.len()) + decode_utf8(y1) =~= lc);
            assert(join_lines(y, 0, l1) == join_lines(y, ey, lc));
            assert(join_lines(s2, n, line) == join_lines(s2, n + x.len() + ey, lc));
            lemma_join_shift(a2, y, ey, lc);
            lemma_join_lines_pos(y, ey, lc);
        } else {
            assert(join_lines(y, 0, l1) is None);
            assert(join_lines(s2, n, line) is None);
        }
    }
}

/// Joining lines from a position `e` up to the marker's line goes the same
/// way with and without the marker: the same text comes out, and reading
/// goes on either at the same position before the marker's line or at
/// corresponding positions in `y`.
proof fn lemma_join_lockstep(
    p: Seq<u8>,
    x: Seq<u8>,
    y: Seq<u8>,
    crlf: bool,
    e: int,
    line: Seq<char>,
)
    requires
        continuation_site(p, x),
        0 <= e <= p.len(),
    ensures
        ({
            let m = continuation_marker_bytes(crlf);
            let j1 = join_lines(p + x + m + y, e, line);
            let j2 = join_lines(p + x + y, e, line);
            &&& j1 is None <==> j2 is None
            &&& j1 is Some ==> {
                &&& j1.unwrap().0 == j2.unwrap().0
                &&& {
                    ||| j1.unwrap().1 == j2.unwrap().1 && e <= j1.unwrap().1 <= p.len()
                    ||| j1.unwrap().1 == j2.unwrap().1 + m.len() && j2.unwrap().1 >= p.len()
                        + x.len()
                }
            }
        }),
    decreases p.len() - e,
{
    let m = continuation_marker_bytes(crlf);
    let s1 = p + x + m + y;
    let s2 = p + x + y;
    let n = p.len() as int;
    let k = continuation_len(line);
    if k != 0 {
        if e < n {
            let st = line.take(line.len() - k);
            assert(s1 =~= p + (x + m + y));
            assert(s2 =~= p + (x + y));
            lemma_line_end_prefix(p, x + m + y, e);
            lemma_line_end_prefix(p, x + y, e);
            let e2 = line_end(p, e);
            assert(s1.subrange(e, e2) =~= p.subrange(e, e2));
            assert(s2.subrange(e, e2) =~= p.subrange(e, e2));
            let bytes = p.subrange(e, e2);
            if valid_utf8(bytes) {
                lemma_join_lockstep(p, x, y, crlf, e2, st + decode_utf8(bytes));
            }
        } else {
            lemma_join_at_marker_line(p, x, y, crlf, line);
        }
    }
}

/// Reading from a line start at or before the marker's line gives the same
/// result with and without the marker.
proof fn lemma_parse_lockstep(p: Seq<u8>, x: Seq<u8>, y: Seq<u8>, crlf: bool, i: int, st: ObjModel)
    requires
        continuation_site(p, x),
        0 <= i <= p.len(),
    ensures
        parse_from(p + x + continuation_marker_bytes(crlf) + y, i, st) == parse_from(
            p + x + y,
            i,
            st,
        ),
    decreases p.len() - i,
{
    let m = continuation_marker_bytes(crlf);
    let a1 = p + x + m;
    let a2 = p + x;
    let s1 = a1 + y;
    let s2 = a2 + y;
    let n = p.len() as int;
    lemma_marker_text(crlf);
    if i == n {
        assert(s1 =~= p + (x + m + y));
        assert(s2 =~= p + (x + y));
        lemma_parse_from_shift(p, x + m + y, 0, st);
        lemma_parse_from_shift(p, x + y, 0, st);
        lemma_continuation_at_line_start(x, y, crlf, st);
    } else {
        assert(s1 =~= p + (x + m + y));
        assert(s2 =~= p + (x + y));
        lemma_line_end_prefix(p, x + m + y, i);
        lemma_line_end_prefix(p, x + y, i);
        let e = line_end(p, i);
        assert(s1.subrange(i, e) =~= p.subrange(i, e));
        assert(s2.subrange(i, e) =~= p.subrange(i, e));
        let bytes = p.subrange(i, e);
        if valid_utf8(bytes) {
            let line = decode_utf8(bytes);
            lemma_join_lockstep(p, x, y, crlf, e, line);
            let j1 = join_lines(s1, e, line);
            let j2 = join_lines(s2, e, line);
            if j1 is Some {
                let (l, q1) = j1.unwrap();
                let q2 = j2.unwrap().1;
                let r = spec_line(l, st);
                if r is Ok {
                    let st2 = r->Ok_0;
                    if q1 == q2 && q1 <= n {
                        lemma_parse_lockstep(p, x, y, crlf, q1, st2);
                    } else {
                        let kq = q2 - n - x.len();
                        lemma_parse_from_shift(a1, y, kq, st2);
                        lemma_parse_from_shift(a2, y, kq, st2);
                        assert(a1.len() + kq == q1);
                        assert(a2.len() + kq == q2);
                    }
                    assert(parse_from(s1, i, st) == parse_from(s1, q1, st2));
                    assert(parse_from(s2, i, st) == parse_from(s2, q2, st2));
                }
            }
        }
    }
}

/// A line that ends in a backslash before its line break reads as if it
/// went on with the next line: wherever a physical line with text `x`
/// begins, after the lines `p`, removing the marker behind it changes
/// nothing.
pub proof fn law_line_continuation(p: Seq<u8>, x: Seq<u8>, y: Seq<u8>, crlf: bool)
    requires
        continuation_site(p, x),
    ensures
        spec_parse(p + x + continuation_marker_bytes(crlf) + y) == spec_parse(p + x + y),
{
    lemma_parse_lockstep(p, x, y, crlf, 0, empty_model());
}

} // verus!
