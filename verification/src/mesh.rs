//! Reading a mesh from text.
//!
//! A line whose first token is `v` defines a vertex by three coordinates;
//! a line whose first token is `f` defines a face by references to
//! vertices, counted from one in the order of their definition. Every
//! other line is ignored. Reading is all or nothing: a text either yields
//! a complete mesh or an error, never a part of a mesh.
//!
//! Coordinates are recognised but not evaluated: a vertex records where
//! in the text its three coordinates stand.

use vstd::prelude::*;
use vstd::slice::slice_subrange;
use crate::text::{
    check_number, find_line_end, index_value, is_number, lemma_line_end_bounds, line_end,
    parse_index, tokenize, tokens_from, word, Span,
};
use crate::tiles::indices_in_range;
use crate::triangulate::{corners_within, face_seqs, fan_all, lemma_fan_all_within, triangulate};

verus! {

pub const LETTER_V: u8 = 118;

pub const LETTER_F: u8 = 102;

/// Why a text could not be read as a mesh.
#[derive(Clone, Copy, Debug, PartialEq, Eq)]
pub enum ParseError {
    /// The source could not be read at all. Reported by whoever fetches
    /// the bytes; reading from bytes never fails this way.
    Io,
    /// A token that should be a number is not one, or is missing.
    MalformedLine,
    /// A face refers to a vertex that the text does not define.
    IndexOutOfRange,
}

/// Where the three coordinates of a vertex stand in the text.
#[derive(Clone, Copy, Debug, PartialEq, Eq)]
pub struct VertexText {
    pub x: Span,
    pub y: Span,
    pub z: Span,
}

/// A mesh as read: vertices and polygonal faces. Slot zero of `vertices`
/// is reserved and stands for no vertex, so that a face's references can
/// be used as positions in `vertices` directly.
pub struct RawMesh {
    pub vertices: Vec<VertexText>,
    pub faces: Vec<Vec<usize>>,
}

/// The mathematical content of a mesh as read.
pub struct MeshModel {
    pub vertices: Seq<VertexText>,
    pub faces: Seq<Seq<usize>>,
}

impl View for RawMesh {
    type V = MeshModel;

    open spec fn view(&self) -> MeshModel {
        MeshModel { vertices: self.vertices@, faces: face_seqs(self.faces@) }
    }
}

/// What one line contributes.
pub enum LineItem {
    Skip,
    Malformed,
    Vertex(VertexText),
    Face(Seq<usize>),
}

/// The placeholder in slot zero: three empty spans.
pub open spec fn reserved_vertex() -> VertexText {
    let nowhere = Span { start: 0, end: 0 };
    VertexText { x: nowhere, y: nowhere, z: nowhere }
}

/// The mesh before any line is read.
pub open spec fn empty_mesh() -> MeshModel {
    MeshModel { vertices: seq![reserved_vertex()], faces: Seq::empty() }
}

/// The references that the tokens after the first spell, or `None` if one
/// of them is not a reference.
pub open spec fn face_of(s: Seq<u8>, tokens: Seq<Span>) -> Option<Seq<usize>>
    decreases tokens.len(),
{
    if tokens.len() <= 1 {
        Some(Seq::empty())
    } else {
        match (face_of(s, tokens.drop_last()), index_value(word(s, tokens.last()))) {
            (Some(face), Some(index)) => Some(face.push(index)),
            _ => None,
        }
    }
}

/// What the line that starts at `i` contributes. A vertex line needs
/// three coordinates after the `v`; further tokens are ignored. A face
/// line may name any number of vertices.
pub open spec fn line_item(s: Seq<u8>, i: int) -> LineItem {
    let tokens = tokens_from(s, i);
    if tokens.len() == 0 {
        LineItem::Skip
    } else if word(s, tokens[0]) == seq![LETTER_V] {
        if tokens.len() >= 4 && is_number(word(s, tokens[1])) && is_number(word(s, tokens[2]))
            && is_number(word(s, tokens[3])) {
            LineItem::Vertex(VertexText { x: tokens[1], y: tokens[2], z: tokens[3] })
        } else {
            LineItem::Malformed
        }
    } else if word(s, tokens[0]) == seq![LETTER_F] {
        match face_of(s, tokens) {
            Some(face) => LineItem::Face(face),
            None => LineItem::Malformed,
        }
    } else {
        LineItem::Skip
    }
}

/// The span selects a coordinate of the text.
pub open spec fn is_number_at(s: Seq<u8>, span: Span) -> bool {
    span.start < span.end <= s.len() && is_number(word(s, span))
}

/// All three spans of the vertex select coordinates of the text.
pub open spec fn holds_numbers(s: Seq<u8>, v: VertexText) -> bool {
    is_number_at(s, v.x) && is_number_at(s, v.y) && is_number_at(s, v.z)
}

/// Every reference of every face names a defined vertex: it is at least
/// one and at most the number of vertices.
pub open spec fn faces_in_range(m: MeshModel) -> bool {
    corners_within(m.faces, 1, m.vertices.len() as int)
}

/// The result once all lines are read: references are checked against
/// all vertices of the text, wherever in the text they are defined.
pub open spec fn finish(m: MeshModel) -> Result<MeshModel, ParseError> {
    if faces_in_range(m) {
        Ok(m)
    } else {
        Err(ParseError::IndexOutOfRange)
    }
}

/// The mesh with what a line contributes added at its end.
pub open spec fn with_item(acc: MeshModel, item: LineItem) -> MeshModel {
    match item {
        LineItem::Vertex(v) => MeshModel { vertices: acc.vertices.push(v), faces: acc.faces },
        LineItem::Face(f) => MeshModel { vertices: acc.vertices, faces: acc.faces.push(f) },
        _ => acc,
    }
}

/// The result of reading the lines from position `i` on into `acc`. The
/// first malformed line ends the reading.
pub open spec fn parse_from(s: Seq<u8>, i: int, acc: MeshModel) -> Result<MeshModel, ParseError>
    decreases s.len() + 1 - i,
{
    if i < 0 || i >= s.len() {
        finish(acc)
    } else if line_item(s, i) is Malformed {
        Err(ParseError::MalformedLine)
    } else {
        proof {
            lemma_line_end_bounds(s, i);
        }
        parse_from(s, line_end(s, i) + 1, with_item(acc, line_item(s, i)))
    }
}

/// The result of reading a whole text.
pub open spec fn parse_model(s: Seq<u8>) -> Result<MeshModel, ParseError> {
    parse_from(s, 0, empty_mesh())
}

enum Line {
    Skip,
    Malformed,
    Vertex(VertexText),
    Face(Vec<usize>),
}

spec fn line_view(line: Line) -> LineItem {
    match line {
        Line::Skip => LineItem::Skip,
        Line::Malformed => LineItem::Malformed,
        Line::Vertex(v) => LineItem::Vertex(v),
        Line::Face(f) => LineItem::Face(f@),
    }
}

fn has_letter(input: &[u8], token: Span, letter: u8) -> (r: bool)
    requires
        token.start < token.end <= input@.len(),
    ensures
        r == (word(input@, token) == seq![letter]),
{
    let r = token.end - token.start == 1 && input[token.start] == letter;
    proof {
        let w = word(input@, token);
        assert(w.len() == token.end - token.start);
        assert(w[0] == input@[token.start as int]);
        if r {
            assert(w =~= seq![letter]);
        }
        if w == seq![letter] {
            assert(seq![letter].len() == 1);
            assert(seq![letter][0] == letter);
        }
    }
    r
}

fn number_at(input: &[u8], token: Span) -> (r: bool)
    requires
        token.start <= token.end <= input@.len(),
    ensures
        r == is_number(word(input@, token)),
{
    check_number(slice_subrange(input, token.start, token.end))
}

proof fn lemma_face_of_stays_none(s: Seq<u8>, tokens: Seq<Span>, j: int)
    requires
        0 <= j <= tokens.len(),
        face_of(s, tokens.take(j)) is None,
    ensures
        face_of(s, tokens) is None,
    decreases tokens.len(),
{
    if j == tokens.len() {
        assert(tokens.take(j) =~= tokens);
    } else {
        assert(tokens.drop_last().take(j) =~= tokens.take(j));
        lemma_face_of_stays_none(s, tokens.drop_last(), j);
    }
}

fn read_face(input: &[u8], tokens: &Vec<Span>) -> (r: Option<Vec<usize>>)
    requires
        forall|k: int|
            0 <= k < tokens@.len() ==> (#[trigger] tokens@[k]).start < tokens@[k].end <= input@.len(),
    ensures
        match r {
            Some(face) => face_of(input@, tokens@) == Some(face@),
            None => face_of(input@, tokens@) is None,
        },
{
    let mut face: Vec<usize> = Vec::new();
    if tokens.len() <= 1 {
        return Some(face);
    }
    let mut k: usize = 1;
    while k < tokens.len()
        invariant
            1 <= k <= tokens@.len(),
            face_of(input@, tokens@.take(k as int)) == Some(face@),
            forall|j: int|
                0 <= j < tokens@.len() ==> (#[trigger] tokens@[j]).start < tokens@[j].end <= input@.len(),
        decreases tokens@.len() - k,
    {
        let token: Span = tokens[k];
        proof {
            assert(tokens@.take(k + 1).drop_last() =~= tokens@.take(k as int));
            assert(tokens@.take(k + 1).last() == tokens@[k as int]);
        }
        match parse_index(slice_subrange(input, token.start, token.end)) {
            Some(index) => {
                face.push(index);
            },
            None => {
                proof {
                    lemma_face_of_stays_none(input@, tokens@, k + 1);
                }
                return None;
            },
        }
        k += 1;
    }
    proof {
        assert(tokens@.take(k as int) =~= tokens@);
    }
    Some(face)
}

fn read_line(input: &[u8], i: usize) -> (line: Line)
    requires
        i <= input@.len(),
    ensures
        line_view(line) == line_item(input@, i as int),
        match line {
            Line::Vertex(v) => holds_numbers(input@, v),
            _ => true,
        },
{
    let tokens: Vec<Span> = tokenize(input, i);
    if tokens.len() == 0 {
        Line::Skip
    } else if has_letter(input, tokens[0], LETTER_V) {
        if tokens.len() >= 4 && number_at(input, tokens[1]) && number_at(input, tokens[2]) && number_at(
            input,
            tokens[3],
        ) {
            Line::Vertex(VertexText { x: tokens[1], y: tokens[2], z: tokens[3] })
        } else {
            Line::Malformed
        }
    } else if has_letter(input, tokens[0], LETTER_F) {
        match read_face(input, &tokens) {
            Some(face) => Line::Face(face),
            None => Line::Malformed,
        }
    } else {
        Line::Skip
    }
}

fn check_faces(faces: &Vec<Vec<usize>>, limit: usize) -> (ok: bool)
    ensures
        ok == corners_within(face_seqs(faces@), 1, limit as int),
{
    let ghost all = face_seqs(faces@);
    let mut f: usize = 0;
    while f < faces.len()
        invariant
            f <= faces@.len(),
            all == face_seqs(faces@),
            forall|g: int, k: int| 0 <= g < f && 0 <= k < all[g].len() ==> 1 <= #[trigger] all[g][k] < limit,
        decreases faces@.len() - f,
    {
        let face: &Vec<usize> = &faces[f];
        let mut k: usize = 0;
        while k < face.len()
            invariant
                k <= face@.len(),
                f < faces@.len(),
                all == face_seqs(faces@),
                face@ == all[f as int],
                forall|j: int| 0 <= j < k ==> 1 <= #[trigger] all[f as int][j] < limit,
            decreases face@.len() - k,
        {
            if face[k] < 1 || face[k] >= limit {
                assert(!(1 <= all[f as int][k as int] < limit));
                return false;
            }
            k += 1;
        }
        f += 1;
    }
    true
}

/// Reads a mesh from text.
///
/// Returns the mesh that `parse_model` describes, or its error:
/// `MalformedLine` for the first vertex line without three coordinates
/// or face line with a token that is not a reference, `IndexOutOfRange`
/// if all lines are well formed but a face refers to a vertex that the
/// text does not define. In a mesh that is returned, the spans of every
/// vertex but the reserved one select coordinates of `input`.
pub fn parse(input: &[u8]) -> (r: Result<RawMesh, ParseError>)
    ensures
        match r {
            Ok(mesh) => {
                &&& parse_model(input@) == Ok::<MeshModel, ParseError>(mesh@)
                &&& mesh.well_formed()
                &&& forall|k: int| 1 <= k < mesh@.vertices.len() ==> holds_numbers(input@, #[trigger] mesh@.vertices[k])
            },
            Err(e) => parse_model(input@) == Err::<MeshModel, ParseError>(e),
        },
{
    let nowhere = Span { start: 0, end: 0 };
    let mut vertices: Vec<VertexText> = Vec::new();
    vertices.push(VertexText { x: nowhere, y: nowhere, z: nowhere });
    let mut faces: Vec<Vec<usize>> = Vec::new();
    let mut i: usize = 0;
    proof {
        assert(vertices@ =~= empty_mesh().vertices);
        assert(face_seqs(faces@) =~= empty_mesh().faces);
    }
    while i < input.len()
        invariant
            i <= input@.len(),
            vertices@.len() >= 1,
            forall|k: int| 1 <= k < vertices@.len() ==> holds_numbers(input@, #[trigger] vertices@[k]),
            parse_model(input@) == parse_from(
                input@,
                i as int,
                MeshModel { vertices: vertices@, faces: face_seqs(faces@) },
            ),
        decreases input@.len() - i,
    {
        let end: usize = find_line_end(input, i);
        let ghost before = MeshModel { vertices: vertices@, faces: face_seqs(faces@) };
        match read_line(input, i) {
            Line::Skip => {},
            Line::Malformed => {
                return Err(ParseError::MalformedLine);
            },
            Line::Vertex(v) => {
                vertices.push(v);
            },
            Line::Face(f) => {
                proof {
                    assert(face_seqs(faces@.push(f)) =~= face_seqs(faces@).push(f@));
                }
                faces.push(f);
            },
        }
        proof {
            let after = MeshModel { vertices: vertices@, faces: face_seqs(faces@) };
            assert(after == with_item(before, line_item(input@, i as int)));
            if end == input@.len() {
                assert(parse_from(input@, end + 1, after) == finish(after));
                assert(parse_from(input@, end as int, after) == finish(after));
            }
        }
        i = if end < input.len() { end + 1 } else { end };
    }
    if check_faces(&faces, vertices.len()) {
        Ok(RawMesh { vertices, faces })
    } else {
        Err(ParseError::IndexOutOfRange)
    }
}

impl RawMesh {
    /// Slot zero is present and every face refers to defined vertices.
    pub open spec fn well_formed(&self) -> bool {
        self@.vertices.len() >= 1 && faces_in_range(self@)
    }

    /// Decides whether the mesh is well formed.
    pub fn is_well_formed(&self) -> (ok: bool)
        ensures
            ok == self.well_formed(),
    {
        self.vertices.len() >= 1 && check_faces(&self.faces, self.vertices.len())
    }

    /// Number of vertices, not counting the reserved slot.
    pub fn vertex_count(&self) -> (n: usize)
        requires
            self.well_formed(),
        ensures
            n == self@.vertices.len() - 1,
    {
        self.vertices.len() - 1
    }

    /// The triangles of all faces as a flat list of references, counted
    /// from one like the faces' own.
    pub fn triangulate(&self) -> (out: Vec<usize>)
        ensures
            out@ == fan_all(self@.faces),
    {
        triangulate(&self.faces)
    }

    /// The triangles of all faces as a flat list of vertex positions
    /// counted from zero, the reserved slot left out: reference `r`
    /// becomes position `r - 1`.
    pub fn triangle_indices(&self) -> (out: Vec<usize>)
        requires
            self.well_formed(),
        ensures
            out@ == zero_based(fan_all(self@.faces)),
            indices_in_range(out@, (self@.vertices.len() - 1) as nat),
    {
        let mut out: Vec<usize> = triangulate(&self.faces);
        let ghost refs = out@;
        proof {
            lemma_fan_all_within(self@.faces, 1, self@.vertices.len() as int);
        }
        let mut k: usize = 0;
        while k < out.len()
            invariant
                k <= out@.len(),
                out@.len() == refs.len(),
                forall|j: int| 0 <= j < refs.len() ==> 1 <= #[trigger] refs[j] < self@.vertices.len(),
                forall|j: int| 0 <= j < k ==> #[trigger] out@[j] == refs[j] - 1,
                forall|j: int| k <= j < refs.len() ==> #[trigger] out@[j] == refs[j],
            decreases out@.len() - k,
        {
            let r: usize = out[k];
            out[k] = r - 1;
            k += 1;
        }
        proof {
            assert(out@ =~= zero_based(refs));
        }
        out
    }
}

/// References counted from one turned into positions counted from zero.
pub open spec fn zero_based(refs: Seq<usize>) -> Seq<usize> {
    refs.map_values(|r: usize| (r - 1) as usize)
}

/// The line that starts at `i` is a vertex line: its first token is `v`.
pub open spec fn is_vertex_line(s: Seq<u8>, i: int) -> bool {
    let tokens = tokens_from(s, i);
    tokens.len() > 0 && word(s, tokens[0]) == seq![LETTER_V]
}

/// Number of vertex lines among the lines from position `i` on.
pub open spec fn vertex_lines(s: Seq<u8>, i: int) -> nat
    decreases s.len() + 1 - i,
{
    if i < 0 || i >= s.len() {
        0
    } else {
        proof {
            lemma_line_end_bounds(s, i);
        }
        let here: nat = if is_vertex_line(s, i) { 1 } else { 0 };
        here + vertex_lines(s, line_end(s, i) + 1)
    }
}

/// Where reading from `i` on succeeds, every vertex line from there on
/// has added exactly one vertex and no other line has added any.
pub proof fn lemma_vertex_count_from(s: Seq<u8>, i: int, acc: MeshModel)
    requires
        parse_from(s, i, acc) is Ok,
    ensures
        parse_from(s, i, acc)->Ok_0.vertices.len() == acc.vertices.len() + vertex_lines(s, i),
    decreases s.len() + 1 - i,
{
    if 0 <= i < s.len() {
        lemma_line_end_bounds(s, i);
        lemma_vertex_count_from(s, line_end(s, i) + 1, with_item(acc, line_item(s, i)));
    }
}

/// A text that reads as a mesh has as many vertices as it has vertex
/// lines, the reserved slot not counted.
pub proof fn lemma_vertex_count(s: Seq<u8>)
    requires
        parse_model(s) is Ok,
    ensures
        parse_model(s)->Ok_0.vertices.len() - 1 == vertex_lines(s, 0),
{
    lemma_vertex_count_from(s, 0, empty_mesh());
}

/// Reading from bytes fails only for what the bytes hold, and what it
/// returns refers to defined vertices only.
pub proof fn lemma_parse_outcomes(s: Seq<u8>, i: int, acc: MeshModel)
    ensures
        match parse_from(s, i, acc) {
            Ok(m) => faces_in_range(m),
            Err(e) => e == ParseError::MalformedLine || e == ParseError::IndexOutOfRange,
        },
    decreases s.len() + 1 - i,
{
    if 0 <= i < s.len() && !(line_item(s, i) is Malformed) {
        lemma_line_end_bounds(s, i);
        lemma_parse_outcomes(s, line_end(s, i) + 1, with_item(acc, line_item(s, i)));
    }
}

} // verus!
