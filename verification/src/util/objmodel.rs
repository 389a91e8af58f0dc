use vstd::prelude::*;
use vstd::slice::slice_subrange;
use vstd::slice::slice_to_vec;
use crate::util::obj::face_vertex_indices;
use crate::util::obj::field_index;
use crate::util::obj::is_zero_field;
use crate::util::obj::slash_fields;
use crate::util::tokens::next_token;
use crate::util::tokens::tokens_of;

verus! {

// ---------------------------------------------------------------------------
// Lines
// ---------------------------------------------------------------------------

/// Number of bytes before the first line feed of `s` (all of `s` if it has
/// none).
pub open spec fn line_len(s: Seq<u8>) -> nat
    decreases s.len(),
{
    if s.len() == 0 || s[0] == 10 {
        0
    } else {
        1 + line_len(s.drop_first())
    }
}

/// A line runs up to, not over, the first line feed or the end of the text.
pub proof fn lemma_line_len_bound(s: Seq<u8>)
    ensures
        line_len(s) <= s.len(),
        line_len(s) < s.len() ==> s[line_len(s) as int] == 10,
    decreases s.len(),
{
    if s.len() > 0 && s[0] != 10 {
        lemma_line_len_bound(s.drop_first());
    }
}

/// The lines of `s`: the text between line feeds, in order. Text that ends
/// with a line feed has an empty last line; empty text is one empty line.
pub open spec fn lines_of(s: Seq<u8>) -> Seq<Seq<u8>>
    decreases s.len(),
{
    let n = line_len(s);
    proof {
        lemma_line_len_bound(s);
    }
    if n >= s.len() {
        seq![s]
    } else {
        seq![s.take(n as int)] + lines_of(s.skip(n + 1 as int))
    }
}

// ---------------------------------------------------------------------------
// The model
// ---------------------------------------------------------------------------

/// One triangle of an OBJ model: zero-based indices into the vertex,
/// texture-coordinate and normal lists.
#[derive(Clone, Copy, Debug, PartialEq, Eq)]
pub struct ObjFace {
    pub vertices: [usize; 3],
    /// `None` where the face gives no texture coordinates.
    pub tex_coords: Option<[usize; 3]>,
    pub normals: [usize; 3],
}

/// What an OBJ file holds: for each `v`, `vt` and `vn` line its coordinate
/// tokens (three, two and three of them), and its triangles.
#[derive(Clone, Debug)]
pub struct ObjModel {
    pub vertices: Vec<Vec<Vec<u8>>>,
    pub tex_coords: Vec<Vec<Vec<u8>>>,
    pub normals: Vec<Vec<Vec<u8>>>,
    pub faces: Vec<ObjFace>,
}

/// Why an OBJ file cannot be read; `line` counts from 1.
#[derive(Clone, Copy, Debug, PartialEq, Eq, Structural)]
pub enum ObjError {
    /// A `v`, `vt` or `vn` line with fewer coordinates than it needs.
    MissingCoordinate { line: usize },
    /// An `f` line with fewer than three vertex references.
    FaceTooShort { line: usize },
    /// An `f` line that writes the index 0 (indices count from 1).
    FaceIndexZero { line: usize },
    /// An `f` line whose first three references name a vertex, texture
    /// coordinate or normal that no earlier line gave, or leave out a
    /// vertex or normal index.
    IndexOutOfRange { line: usize },
}

/// An OBJ model as values.
#[verifier::ext_equal]
pub struct ObjContents {
    pub vertices: Seq<Seq<Seq<u8>>>,
    pub tex_coords: Seq<Seq<Seq<u8>>>,
    pub normals: Seq<Seq<Seq<u8>>>,
    pub faces: Seq<ObjFace>,
}

impl View for ObjModel {
    type V = ObjContents;

    open spec fn view(&self) -> ObjContents {
        ObjContents {
            vertices: self.vertices.deep_view(),
            tex_coords: self.tex_coords.deep_view(),
            normals: self.normals.deep_view(),
            faces: self.faces@,
        }
    }
}

pub open spec fn empty_contents() -> ObjContents {
    ObjContents { vertices: Seq::empty(), tex_coords: Seq::empty(), normals: Seq::empty(), faces: Seq::empty() }
}

/// Field `j` of a vertex reference such as `12//4`, as a zero-based index;
/// `usize::MAX` where the field is missing or writes no number.
pub open spec fn ref_field(r: Seq<u8>, j: int) -> usize {
    if j < slash_fields(r).len() {
        field_index(slash_fields(r)[j])
    } else {
        usize::MAX
    }
}

/// Some reference of a face line writes the number 0 in some field.
pub open spec fn has_zero_field(refs: Seq<Seq<u8>>) -> bool {
    exists|i: int, j: int|
        0 <= i < refs.len() && 0 <= j < slash_fields(refs[i]).len() && #[trigger] is_zero_field(
            slash_fields(refs[i])[j],
        )
}

/// The triangle that the first three references of a face line give:
/// vertex, texture coordinate and normal from fields 0, 1 and 2; no texture
/// coordinates where the first reference gives none.
pub open spec fn face_of(refs: Seq<Seq<u8>>) -> ObjFace {
    ObjFace {
        vertices: [ref_field(refs[0], 0), ref_field(refs[1], 0), ref_field(refs[2], 0)],
        tex_coords: if ref_field(refs[0], 1) == usize::MAX {
            None
        } else {
            Some([ref_field(refs[0], 1), ref_field(refs[1], 1), ref_field(refs[2], 1)])
        },
        normals: [ref_field(refs[0], 2), ref_field(refs[1], 2), ref_field(refs[2], 2)],
    }
}

pub open spec fn indices_below(ix: [usize; 3], n: nat) -> bool {
    ix[0] < n && ix[1] < n && ix[2] < n
}

/// Every index of the face names an entry already read.
pub open spec fn face_in_range(f: ObjFace, m: ObjContents) -> bool {
    &&& indices_below(f.vertices, m.vertices.len())
    &&& indices_below(f.normals, m.normals.len())
    &&& (f.tex_coords matches Some(t) ==> indices_below(t, m.tex_coords.len()))
}

/// Reading the references of an `f` line (the words after `f`) on line
/// number `line`.
pub open spec fn obj_face_line(m: ObjContents, refs: Seq<Seq<u8>>, line: nat) -> Result<ObjContents, ObjError> {
    if has_zero_field(refs) {
        Err(ObjError::FaceIndexZero { line: line as usize })
    } else if refs.len() < 3 {
        Err(ObjError::FaceTooShort { line: line as usize })
    } else if !face_in_range(face_of(refs), m) {
        Err(ObjError::IndexOutOfRange { line: line as usize })
    } else {
        Ok(ObjContents { faces: m.faces.push(face_of(refs)), ..m })
    }
}

/// Reading one line, split into words, on line number `line`: `v`, `vt` and
/// `vn` add their first three, two and three coordinates, `f` adds a
/// triangle, and every other line is skipped.
pub open spec fn obj_line(m: ObjContents, toks: Seq<Seq<u8>>, line: nat) -> Result<ObjContents, ObjError> {
    if toks.len() == 0 {
        Ok(m)
    } else if toks[0] == seq![118u8] {
        if toks.len() < 4 {
            Err(ObjError::MissingCoordinate { line: line as usize })
        } else {
            Ok(ObjContents { vertices: m.vertices.push(toks.subrange(1, 4)), ..m })
        }
    } else if toks[0] == seq![118u8, 116u8] {
        if toks.len() < 3 {
            Err(ObjError::MissingCoordinate { line: line as usize })
        } else {
            Ok(ObjContents { tex_coords: m.tex_coords.push(toks.subrange(1, 3)), ..m })
        }
    } else if toks[0] == seq![118u8, 110u8] {
        if toks.len() < 4 {
            Err(ObjError::MissingCoordinate { line: line as usize })
        } else {
            Ok(ObjContents { normals: m.normals.push(toks.subrange(1, 4)), ..m })
        }
    } else if toks[0] == seq![102u8] {
        obj_face_line(m, toks.drop_first(), line)
    } else {
        Ok(m)
    }
}

/// Reading `lines` in order onto `m`, after `done` lines already read; the
/// first line that cannot be read decides the error.
pub open spec fn obj_fold(m: ObjContents, lines: Seq<Seq<u8>>, done: nat) -> Result<ObjContents, ObjError>
    decreases lines.len(),
{
    if lines.len() == 0 {
        Ok(m)
    } else {
        match obj_line(m, tokens_of(lines[0]), done + 1) {
            Err(e) => Err(e),
            Ok(m2) => obj_fold(m2, lines.drop_first(), done + 1),
        }
    }
}

/// The model that the lines of an OBJ file describe, if they can all be read.
pub open spec fn obj_model(lines: Seq<Seq<u8>>) -> Option<ObjContents> {
    match obj_fold(empty_contents(), lines, 0) {
        Ok(m) => Some(m),
        Err(_) => None,
    }
}

/// The error of the first line of an OBJ file that cannot be read, if any.
pub open spec fn obj_error(lines: Seq<Seq<u8>>) -> Option<ObjError> {
    match obj_fold(empty_contents(), lines, 0) {
        Ok(_) => None,
        Err(e) => Some(e),
    }
}

// ---------------------------------------------------------------------------
// What a read model holds, line by line
// ---------------------------------------------------------------------------

/// The first words of vertex, texture-coordinate, normal and face lines:
/// `v`, `vt`, `vn` and `f`.
pub open spec fn vertex_word() -> Seq<u8> {
    seq![118u8]
}

pub open spec fn tex_word() -> Seq<u8> {
    seq![118u8, 116u8]
}

pub open spec fn normal_word() -> Seq<u8> {
    seq![118u8, 110u8]
}

pub open spec fn face_word() -> Seq<u8> {
    seq![102u8]
}

/// The line's first word is `keyword`.
pub open spec fn starts_with_word(words: Seq<Seq<u8>>, keyword: Seq<u8>) -> bool {
    words.len() > 0 && words[0] == keyword
}

/// The words of every line of `lines` whose first word is `keyword`, in the
/// order of the lines.
pub open spec fn keyword_lines(lines: Seq<Seq<u8>>, keyword: Seq<u8>) -> Seq<Seq<Seq<u8>>>
    decreases lines.len(),
{
    if lines.len() == 0 {
        Seq::empty()
    } else {
        let words = tokens_of(lines[0]);
        let rest = keyword_lines(lines.drop_first(), keyword);
        if starts_with_word(words, keyword) {
            seq![words] + rest
        } else {
            rest
        }
    }
}

/// Words 1 to `n` of each line.
pub open spec fn coordinate_words(lines: Seq<Seq<Seq<u8>>>, n: int) -> Seq<Seq<Seq<u8>>> {
    lines.map_values(|words: Seq<Seq<u8>>| words.subrange(1, n + 1))
}

/// Corner `j` (0, 1 or 2) of `f` takes its vertex, texture coordinate and
/// normal from fields 0, 1 and 2 of word `j + 1` of the `f` line `words`,
/// each one less than written; the face has texture coordinates exactly when
/// the first reference writes one.
pub open spec fn face_reads(f: ObjFace, words: Seq<Seq<u8>>) -> bool {
    &&& forall|j: int|
        0 <= j < 3 ==> #[trigger] f.vertices[j] == ref_field(words[j + 1], 0) && f.normals[j] == ref_field(
            words[j + 1],
            2,
        )
    &&& (ref_field(words[1], 1) == usize::MAX <==> f.tex_coords is None)
    &&& (f.tex_coords matches Some(t) ==> forall|j: int| 0 <= j < 3 ==> #[trigger] t[j] == ref_field(words[j + 1], 1))
}

proof fn lemma_line_effect(m: ObjContents, t: Seq<Seq<u8>>, n: nat, m2: ObjContents)
    requires
        obj_line(m, t, n) == Ok::<ObjContents, ObjError>(m2),
    ensures
        m2.vertices == if starts_with_word(t, vertex_word()) {
            m.vertices.push(t.subrange(1, 4))
        } else {
            m.vertices
        },
        m2.tex_coords == if starts_with_word(t, tex_word()) {
            m.tex_coords.push(t.subrange(1, 3))
        } else {
            m.tex_coords
        },
        m2.normals == if starts_with_word(t, normal_word()) {
            m.normals.push(t.subrange(1, 4))
        } else {
            m.normals
        },
        starts_with_word(t, vertex_word()) ==> t.len() >= 4,
        starts_with_word(t, tex_word()) ==> t.len() >= 3,
        starts_with_word(t, normal_word()) ==> t.len() >= 4,
        starts_with_word(t, face_word()) ==> {
            &&& t.len() >= 4
            &&& m2.faces.len() == m.faces.len() + 1
            &&& m2.faces.drop_last() == m.faces
            &&& face_reads(m2.faces.last(), t)
        },
        !starts_with_word(t, face_word()) ==> m2.faces == m.faces,
{
    let v = vertex_word();
    let vt = tex_word();
    let vn = normal_word();
    let f = face_word();
    assert(v != vt) by {
        assert(v.len() != vt.len());
    }
    assert(v != vn) by {
        assert(v.len() != vn.len());
    }
    assert(v != f) by {
        assert(v[0] != f[0]);
    }
    assert(vt != vn) by {
        assert(vt[1] != vn[1]);
    }
    assert(vt != f) by {
        assert(vt.len() != f.len());
    }
    assert(vn != f) by {
        assert(vn.len() != f.len());
    }
    if starts_with_word(t, f) {
        let refs = t.drop_first();
        let face = face_of(refs);
        assert(m2.faces.drop_last() =~= m.faces);
        assert forall|j: int| 0 <= j < 3 implies #[trigger] face.vertices[j] == ref_field(t[j + 1], 0)
            && face.normals[j] == ref_field(t[j + 1], 2) by {
            assert(refs[j] == t[j + 1]);
        }
        assert(refs[0] == t[1]);
        assert(refs[1] == t[2]);
        assert(refs[2] == t[3]);
    }
}

proof fn lemma_keyword_lines_step(lines: Seq<Seq<u8>>, keyword: Seq<u8>)
    requires
        lines.len() > 0,
    ensures
        keyword_lines(lines, keyword) == (if starts_with_word(tokens_of(lines[0]), keyword) {
            seq![tokens_of(lines[0])]
        } else {
            Seq::empty()
        }) + keyword_lines(lines.drop_first(), keyword),
{
    if !starts_with_word(tokens_of(lines[0]), keyword) {
        assert(Seq::<Seq<Seq<u8>>>::empty() + keyword_lines(lines.drop_first(), keyword) =~= keyword_lines(
            lines.drop_first(),
            keyword,
        ));
    }
}

/// Reading `lines` onto `m` appends, in order, the coordinate words of each
/// `v`, `vt` and `vn` line and the face of each `f` line.
proof fn lemma_fold_follows_lines(m: ObjContents, lines: Seq<Seq<u8>>, done: nat, c: ObjContents)
    requires
        obj_fold(m, lines, done) == Ok::<ObjContents, ObjError>(c),
    ensures
        c.vertices == m.vertices + coordinate_words(keyword_lines(lines, vertex_word()), 3),
        c.tex_coords == m.tex_coords + coordinate_words(keyword_lines(lines, tex_word()), 2),
        c.normals == m.normals + coordinate_words(keyword_lines(lines, normal_word()), 3),
        forall|k: int|
            0 <= k < keyword_lines(lines, vertex_word()).len() ==> (#[trigger] keyword_lines(lines, vertex_word())[k]).len()
                >= 4,
        forall|k: int|
            0 <= k < keyword_lines(lines, tex_word()).len() ==> (#[trigger] keyword_lines(
                lines,
                tex_word(),
            )[k]).len() >= 3,
        forall|k: int|
            0 <= k < keyword_lines(lines, normal_word()).len() ==> (#[trigger] keyword_lines(
                lines,
                normal_word(),
            )[k]).len() >= 4,
        c.faces.len() == m.faces.len() + keyword_lines(lines, face_word()).len(),
        forall|k: int| 0 <= k < m.faces.len() ==> #[trigger] c.faces[k] == m.faces[k],
        forall|k: int|
            0 <= k < keyword_lines(lines, face_word()).len() ==> (#[trigger] keyword_lines(lines, face_word())[k]).len()
                >= 4 && face_reads(c.faces[m.faces.len() + k], keyword_lines(lines, face_word())[k]),
    decreases lines.len(),
{
    let v = vertex_word();
    let vt = tex_word();
    let vn = normal_word();
    let f = face_word();
    if lines.len() == 0 {
        assert(m.vertices + coordinate_words(keyword_lines(lines, v), 3) =~= m.vertices);
        assert(m.tex_coords + coordinate_words(keyword_lines(lines, vt), 2) =~= m.tex_coords);
        assert(m.normals + coordinate_words(keyword_lines(lines, vn), 3) =~= m.normals);
    } else {
        let t = tokens_of(lines[0]);
        let rest = lines.drop_first();
        let m2 = obj_line(m, t, done + 1)->Ok_0;
        lemma_line_effect(m, t, done + 1, m2);
        lemma_fold_follows_lines(m2, rest, done + 1, c);
        lemma_keyword_lines_step(lines, v);
        lemma_keyword_lines_step(lines, vt);
        lemma_keyword_lines_step(lines, vn);
        lemma_keyword_lines_step(lines, f);
        let kv = keyword_lines(lines, v);
        let kvt = keyword_lines(lines, vt);
        let kvn = keyword_lines(lines, vn);
        let kf = keyword_lines(lines, f);
        let rf = keyword_lines(rest, f);
        assert(c.vertices =~= m.vertices + coordinate_words(kv, 3)) by {
            if starts_with_word(t, v) {
                assert(coordinate_words(kv, 3) =~= seq![t.subrange(1, 4)] + coordinate_words(keyword_lines(rest, v), 3));
            } else {
                assert(kv == keyword_lines(rest, v));
            }
        }
        assert(c.tex_coords =~= m.tex_coords + coordinate_words(kvt, 2)) by {
            if starts_with_word(t, vt) {
                assert(coordinate_words(kvt, 2) =~= seq![t.subrange(1, 3)] + coordinate_words(
                    keyword_lines(rest, vt),
                    2,
                ));
            } else {
                assert(kvt == keyword_lines(rest, vt));
            }
        }
        assert(c.normals =~= m.normals + coordinate_words(kvn, 3)) by {
            if starts_with_word(t, vn) {
                assert(coordinate_words(kvn, 3) =~= seq![t.subrange(1, 4)] + coordinate_words(
                    keyword_lines(rest, vn),
                    3,
                ));
            } else {
                assert(kvn == keyword_lines(rest, vn));
            }
        }
        assert forall|k: int| 0 <= k < kv.len() implies (#[trigger] kv[k]).len() >= 4 by {
            if starts_with_word(t, v) && k == 0 {
            } else if starts_with_word(t, v) {
                assert(kv[k] == keyword_lines(rest, v)[k - 1]);
            } else {
                assert(kv[k] == keyword_lines(rest, v)[k]);
            }
        }
        assert forall|k: int| 0 <= k < kvt.len() implies (#[trigger] kvt[k]).len() >= 3 by {
            if starts_with_word(t, vt) && k == 0 {
            } else if starts_with_word(t, vt) {
                assert(kvt[k] == keyword_lines(rest, vt)[k - 1]);
            } else {
                assert(kvt[k] == keyword_lines(rest, vt)[k]);
            }
        }
        assert forall|k: int| 0 <= k < kvn.len() implies (#[trigger] kvn[k]).len() >= 4 by {
            if starts_with_word(t, vn) && k == 0 {
            } else if starts_with_word(t, vn) {
                assert(kvn[k] == keyword_lines(rest, vn)[k - 1]);
            } else {
                assert(kvn[k] == keyword_lines(rest, vn)[k]);
            }
        }
        if starts_with_word(t, f) {
            assert(kf =~= seq![t] + rf);
            assert forall|k: int| 0 <= k < m.faces.len() implies #[trigger] c.faces[k] == m.faces[k] by {
                assert(c.faces[k] == m2.faces[k]);
                assert(m2.faces.drop_last()[k] == m2.faces[k]);
            }
            assert(c.faces[m.faces.len() as int] == m2.faces[m.faces.len() as int]);
            assert forall|k: int| 0 <= k < kf.len() implies (#[trigger] kf[k]).len() >= 4 && face_reads(
                c.faces[m.faces.len() + k],
                kf[k],
            ) by {
                if k > 0 {
                    assert(kf[k] == rf[k - 1]);
                    assert(m.faces.len() + k == m2.faces.len() + (k - 1));
                }
            }
        } else {
            assert(kf =~= rf);
        }
    }
}

/// What a read OBJ model holds, in terms of the lines of the file: the
/// `k`-th vertex, texture coordinate and normal are words 1 to 3, 1 to 2 and
/// 1 to 3 of the `k`-th `v`, `vt` and `vn` line; the `k`-th face is read from
/// the `k`-th `f` line, corner `j` from its word `j + 1`: vertex from field 0,
/// texture coordinate from field 1 (none at all when the first reference
/// writes none), normal from field 2, each one less than written.
pub proof fn lemma_model_follows_lines(lines: Seq<Seq<u8>>, c: ObjContents)
    requires
        obj_model(lines) == Some(c),
    ensures
        c.vertices.len() == keyword_lines(lines, vertex_word()).len(),
        forall|k: int| 0 <= k < c.vertices.len() ==> (#[trigger] c.vertices[k]).len() == 3,
        forall|k: int, i: int|
            0 <= k < c.vertices.len() && 0 <= i < 3 ==> #[trigger] c.vertices[k][i] == keyword_lines(lines, vertex_word())[k][i + 1],
        c.tex_coords.len() == keyword_lines(lines, tex_word()).len(),
        forall|k: int| 0 <= k < c.tex_coords.len() ==> (#[trigger] c.tex_coords[k]).len() == 2,
        forall|k: int, i: int|
            0 <= k < c.tex_coords.len() && 0 <= i < 2 ==> #[trigger] c.tex_coords[k][i] == keyword_lines(lines, tex_word())[k][i + 1],
        c.normals.len() == keyword_lines(lines, normal_word()).len(),
        forall|k: int| 0 <= k < c.normals.len() ==> (#[trigger] c.normals[k]).len() == 3,
        forall|k: int, i: int|
            0 <= k < c.normals.len() && 0 <= i < 3 ==> #[trigger] c.normals[k][i] == keyword_lines(lines, normal_word())[k][i + 1],
        c.faces.len() == keyword_lines(lines, face_word()).len(),
        forall|k: int| 0 <= k < c.faces.len() ==> face_reads(#[trigger] c.faces[k], keyword_lines(lines, face_word())[k]),
{
    let e = empty_contents();
    lemma_fold_follows_lines(e, lines, 0, c);
    let kv = keyword_lines(lines, vertex_word());
    let kvt = keyword_lines(lines, tex_word());
    let kvn = keyword_lines(lines, normal_word());
    assert(c.vertices =~= coordinate_words(kv, 3));
    assert(c.tex_coords =~= coordinate_words(kvt, 2));
    assert(c.normals =~= coordinate_words(kvn, 3));
    assert forall|k: int, i: int| 0 <= k < c.vertices.len() && 0 <= i < 3 implies c.vertices[k].len() == 3
        && #[trigger] c.vertices[k][i] == kv[k][i + 1] by {
        assert(kv[k].len() >= 4);
    }
    assert forall|k: int, i: int| 0 <= k < c.tex_coords.len() && 0 <= i < 2 implies c.tex_coords[k].len() == 2
        && #[trigger] c.tex_coords[k][i] == kvt[k][i + 1] by {
        assert(kvt[k].len() >= 3);
    }
    assert forall|k: int, i: int| 0 <= k < c.normals.len() && 0 <= i < 3 implies c.normals[k].len() == 3
        && #[trigger] c.normals[k][i] == kvn[k][i + 1] by {
        assert(kvn[k].len() >= 4);
    }
    assert forall|k: int| 0 <= k < c.faces.len() implies face_reads(
        #[trigger] c.faces[k],
        keyword_lines(lines, face_word())[k],
    ) by {
        assert(0 + k == k);
    }
}

// ---------------------------------------------------------------------------
// Reading
// ---------------------------------------------------------------------------

proof fn lemma_bytes_deep_view(v: Vec<u8>)
    ensures
        v.deep_view() == v@,
{
    assert(v.deep_view() =~= v@);
}

/// The bytes `a..b` of `bytes`, copied.
fn copy_range(bytes: &[u8], a: usize, b: usize) -> (v: Vec<u8>)
    requires
        a <= b <= bytes@.len(),
    ensures
        v@ == bytes@.subrange(a as int, b as int),
{
    slice_to_vec(slice_subrange(bytes, a, b))
}

/// The words of `line`, each copied.
fn line_tokens(line: &[u8]) -> (toks: Vec<Vec<u8>>)
    ensures
        toks.deep_view() == tokens_of(line@),
{
    let mut toks: Vec<Vec<u8>> = Vec::new();
    let mut pos: usize = 0;
    assert(line@.skip(0) == line@);
    assert(toks.deep_view() + tokens_of(line@.skip(0)) =~= tokens_of(line@));
    loop
        invariant
            pos <= line@.len(),
            toks.deep_view() + tokens_of(line@.skip(pos as int)) == tokens_of(line@),
        decreases line@.len() - pos,
    {
        match next_token(line, pos) {
            None => {
                assert(toks.deep_view() + tokens_of(line@.skip(pos as int)) =~= toks.deep_view());
                return toks;
            },
            Some((a, b)) => {
                let t = copy_range(line, a, b);
                let ghost before = toks.deep_view();
                proof {
                    lemma_bytes_deep_view(t);
                }
                toks.push(t);
                assert(toks.deep_view() =~= before.push(line@.subrange(a as int, b as int)));
                assert(toks.deep_view() + tokens_of(line@.skip(b as int)) =~= before + (seq![
                    line@.subrange(a as int, b as int),
                ] + tokens_of(line@.skip(b as int))));
                pos = b;
            },
        }
    }
}

/// The end of the line that starts at `start`: the position of the next line
/// feed, or the end of the text.
fn find_line_end(text: &[u8], start: usize) -> (e: usize)
    requires
        start <= text@.len(),
    ensures
        start <= e <= text@.len(),
        e - start == line_len(text@.skip(start as int)),
{
    let n = text.len();
    let mut j = start;
    while j < n && text[j] != 10
        invariant
            start <= j <= n,
            n == text@.len(),
            line_len(text@.skip(start as int)) == (j - start) + line_len(text@.skip(j as int)),
        decreases n - j,
    {
        assert(text@.skip(j as int).drop_first() == text@.skip(j + 1));
        j = j + 1;
    }
    j
}

/// Copies of the `k` words after the first.
fn coordinates(toks: &Vec<Vec<u8>>, k: usize) -> (c: Vec<Vec<u8>>)
    requires
        k + 1 <= toks@.len(),
    ensures
        c.deep_view() == toks.deep_view().subrange(1, k + 1),
{
    let mut c: Vec<Vec<u8>> = Vec::new();
    let mut i: usize = 1;
    let n = toks.len();
    while i <= k
        invariant
            1 <= i <= k + 1,
            k + 1 <= toks@.len(),
            n == toks@.len(),
            c.deep_view() == toks.deep_view().subrange(1, i as int),
        decreases k + 1 - i,
    {
        let t = slice_to_vec(toks[i].as_slice());
        let ghost before = c.deep_view();
        proof {
            lemma_bytes_deep_view(t);
            lemma_bytes_deep_view(toks@[i as int]);
            assert(toks.deep_view()[i as int] == t@);
        }
        c.push(t);
        assert(c.deep_view() =~= before.push(t@));
        assert(before.push(t@) =~= toks.deep_view().subrange(1, i + 1));
        i = i + 1;
    }
    c
}

/// Fields 0, 1 and 2 of a vertex reference that writes no 0.
fn reference_fields(token: &Vec<u8>) -> (r: (usize, usize, usize))
    requires
        forall|j: int|
            0 <= j < slash_fields(token@).len() ==> !#[trigger] is_zero_field(slash_fields(token@)[j]),
    ensures
        r == (ref_field(token@, 0), ref_field(token@, 1), ref_field(token@, 2)),
{
    match face_vertex_indices(token.as_slice()) {
        Some(ix) => {
            let a = if ix.len() > 0 { ix[0] } else { usize::MAX };
            let b = if ix.len() > 1 { ix[1] } else { usize::MAX };
            let c = if ix.len() > 2 { ix[2] } else { usize::MAX };
            (a, b, c)
        },
        None => {
            proof {
                let j = choose|j: int|
                    0 <= j < slash_fields(token@).len() && #[trigger] is_zero_field(slash_fields(token@)[j]);
                assert(!is_zero_field(slash_fields(token@)[j]));
            }
            (usize::MAX, usize::MAX, usize::MAX)
        },
    }
}

/// Reads the words of an `f` line onto `model`.
fn read_face(model: &mut ObjModel, toks: &Vec<Vec<u8>>, line: usize) -> (r: Result<(), ObjError>)
    requires
        toks@.len() >= 1,
    ensures
        match obj_face_line(old(model)@, toks.deep_view().drop_first(), line as nat) {
            Ok(c) => r is Ok && final(model)@ == c,
            Err(e) => r == Err::<(), ObjError>(e),
        },
{
    let ghost refs = toks.deep_view().drop_first();
    let n = toks.len();
    let mut i: usize = 1;
    while i < n
        invariant
            1 <= i <= n,
            n == toks@.len(),
            refs == toks.deep_view().drop_first(),
            forall|i2: int, j: int|
                0 <= i2 < i - 1 && 0 <= j < slash_fields(refs[i2]).len() ==> !#[trigger] is_zero_field(
                    slash_fields(refs[i2])[j],
                ),
        decreases n - i,
    {
        proof {
            lemma_bytes_deep_view(toks@[i as int]);
            assert(refs[i - 1] == toks@[i as int]@);
        }
        match face_vertex_indices(toks[i].as_slice()) {
            None => {
                proof {
                    let j = choose|j: int|
                        0 <= j < slash_fields(refs[i - 1]).len() && #[trigger] is_zero_field(
                            slash_fields(refs[i - 1])[j],
                        );
                    assert(is_zero_field(slash_fields(refs[i - 1])[j]));
                    assert(has_zero_field(refs));
                }
                return Err(ObjError::FaceIndexZero { line });
            },
            Some(_) => {},
        }
        i = i + 1;
    }
    assert(!has_zero_field(refs));
    if n < 4 {
        return Err(ObjError::FaceTooShort { line });
    }
    proof {
        lemma_bytes_deep_view(toks@[1]);
        lemma_bytes_deep_view(toks@[2]);
        lemma_bytes_deep_view(toks@[3]);
        assert(refs[0] == toks@[1]@);
        assert(refs[1] == toks@[2]@);
        assert(refs[2] == toks@[3]@);
    }
    let (v0, t0, n0) = reference_fields(&toks[1]);
    let (v1, t1, n1) = reference_fields(&toks[2]);
    let (v2, t2, n2) = reference_fields(&toks[3]);
    let tex_coords = if t0 == usize::MAX {
        None
    } else {
        Some([t0, t1, t2])
    };
    let face = ObjFace { vertices: [v0, v1, v2], tex_coords, normals: [n0, n1, n2] };
    assert(face == face_of(refs));
    let nv = model.vertices.len();
    let nt = model.tex_coords.len();
    let nn = model.normals.len();
    let tex_ok = match tex_coords {
        Some(t) => t[0] < nt && t[1] < nt && t[2] < nt,
        None => true,
    };
    if !(v0 < nv && v1 < nv && v2 < nv && n0 < nn && n1 < nn && n2 < nn && tex_ok) {
        return Err(ObjError::IndexOutOfRange { line });
    }
    model.faces.push(face);
    Ok(())
}

/// Reads one line, split into words, onto `model`; `done` lines came before it.
fn read_line(model: &mut ObjModel, toks: &Vec<Vec<u8>>, done: usize) -> (r: Result<(), ObjError>)
    requires
        toks@.len() > 0 ==> done < usize::MAX,
    ensures
        match obj_line(old(model)@, toks.deep_view(), (done + 1) as nat) {
            Ok(c) => r is Ok && final(model)@ == c,
            Err(e) => r == Err::<(), ObjError>(e),
        },
{
    let ghost t = toks.deep_view();
    if toks.len() == 0 {
        return Ok(());
    }
    let line = done + 1;
    let word = &toks[0];
    proof {
        lemma_bytes_deep_view(toks@[0]);
        assert(t[0] == word@);
    }
    let w = word.len();
    if w == 1 && word[0] == 118 {
        assert(word@ =~= seq![118u8]);
        if toks.len() < 4 {
            return Err(ObjError::MissingCoordinate { line });
        }
        let c = coordinates(toks, 3);
        let ghost before = model.vertices.deep_view();
        model.vertices.push(c);
        assert(model.vertices.deep_view() =~= before.push(t.subrange(1, 4)));
        assert(model@ =~= (ObjContents { vertices: before.push(t.subrange(1, 4)), ..old(model)@ }));
        return Ok(());
    }
    assert(word@ != seq![118u8]) by {
        if word@ == seq![118u8] {
            assert(word@.len() == 1 && word@[0] == 118);
        }
    }
    if w == 2 && word[0] == 118 && word[1] == 116 {
        assert(word@ =~= seq![118u8, 116u8]);
        if toks.len() < 3 {
            return Err(ObjError::MissingCoordinate { line });
        }
        let c = coordinates(toks, 2);
        let ghost before = model.tex_coords.deep_view();
        model.tex_coords.push(c);
        assert(model.tex_coords.deep_view() =~= before.push(t.subrange(1, 3)));
        assert(model@ =~= (ObjContents { tex_coords: before.push(t.subrange(1, 3)), ..old(model)@ }));
        return Ok(());
    }
    assert(word@ != seq![118u8, 116u8]) by {
        if word@ == seq![118u8, 116u8] {
            assert(word@.len() == 2 && word@[0] == 118 && word@[1] == 116);
        }
    }
    if w == 2 && word[0] == 118 && word[1] == 110 {
        assert(word@ =~= seq![118u8, 110u8]);
        if toks.len() < 4 {
            return Err(ObjError::MissingCoordinate { line });
        }
        let c = coordinates(toks, 3);
        let ghost before = model.normals.deep_view();
        model.normals.push(c);
        assert(model.normals.deep_view() =~= before.push(t.subrange(1, 4)));
        assert(model@ =~= (ObjContents { normals: before.push(t.subrange(1, 4)), ..old(model)@ }));
        return Ok(());
    }
    assert(word@ != seq![118u8, 110u8]) by {
        if word@ == seq![118u8, 110u8] {
            assert(word@.len() == 2 && word@[0] == 118 && word@[1] == 110);
        }
    }
    if w == 1 && word[0] == 102 {
        assert(word@ =~= seq![102u8]);
        return read_face(model, toks, line);
    }
    assert(word@ != seq![102u8]) by {
        if word@ == seq![102u8] {
            assert(word@.len() == 1 && word@[0] == 102);
        }
    }
    Ok(())
}

/// Reads the text of an OBJ file: its vertices, texture coordinates and
/// normals as coordinate words, and its triangles as zero-based indices.
pub fn parse_obj(text: &[u8]) -> (r: Result<ObjModel, ObjError>)
    ensures
        match r {
            Ok(m) => obj_model(lines_of(text@)) == Some(m@),
            Err(e) => obj_error(lines_of(text@)) == Some(e),
        },
        r matches Ok(m) ==> {
            &&& m@.normals.len() == keyword_lines(lines_of(text@), normal_word()).len()
            &&& forall|k: int| 0 <= k < m@.normals.len() ==> (#[trigger] m@.normals[k]).len() == 3
            &&& forall|k: int, i: int|
                0 <= k < m@.normals.len() && 0 <= i < 3 ==> #[trigger] m@.normals[k][i] == keyword_lines(
                    lines_of(text@),
                    normal_word(),
                )[k][i + 1]
            &&& m@.faces.len() == keyword_lines(lines_of(text@), face_word()).len()
            &&& forall|k: int|
                0 <= k < m@.faces.len() ==> face_reads(#[trigger] m@.faces[k], keyword_lines(lines_of(text@), face_word())[k])
        },
{
    let mut model = ObjModel { vertices: Vec::new(), tex_coords: Vec::new(), normals: Vec::new(), faces: Vec::new() };
    assert(model@ =~= empty_contents());
    let mut start: usize = 0;
    let mut done: usize = 0;
    assert(text@.skip(0) == text@);
    loop
        invariant
            start <= text@.len(),
            done <= start,
            obj_fold(empty_contents(), lines_of(text@), 0) == obj_fold(
                model@,
                lines_of(text@.skip(start as int)),
                done as nat,
            ),
        decreases text@.len() - start,
    {
        let e = find_line_end(text, start);
        let line = copy_range(text, start, e);
        let toks = line_tokens(line.as_slice());
        let ghost rest = text@.skip(start as int);
        let ghost lines = lines_of(rest);
        proof {
            lemma_line_len_bound(rest);
            if e < text@.len() {
                assert(rest.take(e - start) == line@);
                assert(rest.skip(e - start + 1) == text@.skip(e + 1));
                assert(lines == seq![line@] + lines_of(text@.skip(e + 1)));
            } else {
                assert(rest == line@);
                assert(lines == seq![line@]);
            }
            assert(lines[0] == line@);
            if toks@.len() > 0 {
                assert(line@.len() > 0);
            }
        }
        let ghost before = model@;
        assert(tokens_of(lines[0]) == toks.deep_view());
        match read_line(&mut model, &toks, done) {
            Err(err) => {
                assert(obj_fold(before, lines, done as nat) == Err::<ObjContents, ObjError>(err));
                return Err(err);
            },
            Ok(()) => {},
        }
        assert(obj_fold(before, lines, done as nat) == obj_fold(model@, lines.drop_first(), (done + 1) as nat));
        if e == text.len() {
            assert(lines.drop_first() =~= Seq::<Seq<u8>>::empty());
            assert(obj_fold(model@, lines.drop_first(), (done + 1) as nat) == Ok::<ObjContents, ObjError>(model@));
            proof {
                assert(obj_model(lines_of(text@)) == Some(model@));
                lemma_model_follows_lines(lines_of(text@), model@);
            }
            return Ok(model);
        }
        assert(lines.drop_first() =~= lines_of(text@.skip(e + 1)));
        start = e + 1;
        done = done + 1;
    }
}

} // verus!
