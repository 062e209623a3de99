//! The SU2 text format: reading a mesh from it.
//!
//! A file is read line by line. A line that starts with `NDIME=`, `NPOIN=`,
//! `NELEM=` or `NMARK=` opens a section and says how many lines belong to
//! it; every other line is passed over.

use crate::common::number::append_bytes;
use crate::common::number::format_decimal;
use crate::common::number::format_usize;
use crate::common::number::nat_digits;
use crate::common::number::parse_decimal;
use crate::common::number::spec_format_decimal;
use crate::common::number::parse_usize;
use crate::common::number::spec_parse_decimal;
use crate::common::number::spec_parse_usize;
use crate::common::number::NumberError;
use crate::common::text::after_first;
use crate::common::text::lines;
use crate::common::text::parse_key_value_pair;
use crate::common::text::spec_key_value;
use crate::common::text::spec_lines;
use crate::common::text::spec_tokens;
use crate::common::text::spec_trim;
use crate::common::text::starts_with;
use crate::common::text::text_after_first;
use crate::common::text::tokens;
use crate::common::text::trim;
use crate::common::text::views;
use crate::common::text::EQUALS;
use crate::common::vector3::Vector3;
use crate::grid::block::spec_build;
use crate::grid::block::BlockModel;
use crate::grid::block::GridBlock;
use crate::grid::cell::CellShape;
use crate::grid::Block;
use vstd::prelude::*;

verus! {

/// Why a text is not a mesh, or not one that a block can be built from.
#[derive(Debug, PartialEq, Eq, Clone, Copy, Structural)]
pub enum Su2Error {
    /// The vertices come before the number of dimensions, or the text does
    /// not give the number of dimensions at all.
    MissingDimensions,
    /// The number of dimensions is neither 2 nor 3.
    InvalidDimensions,
    /// What follows the `=` of a section line is not a number.
    InvalidCount,
    /// The text ends inside a section.
    UnexpectedEndOfFile,
    /// The line of a vertex holds no coordinate, or something that is not a
    /// number where a coordinate should stand.
    InvalidPoint,
    /// A coordinate lies beyond the range of coordinates.
    CoordinateOutOfRange,
    /// The line of a cell does not hold the code of a triangle or a
    /// quadrilateral followed by the numbers of that many vertices.
    InvalidElement,
    /// The line that should name a boundary does not start with `MARKER_TAG`
    /// or has no `=`.
    MissingMarkerTag,
    /// The line after the name of a boundary does not start with
    /// `MARKER_ELEMS`.
    MissingMarkerElems,
    /// The line of a boundary edge does not hold the code of a line followed
    /// by the numbers of two vertices.
    InvalidBoundaryElement,
    /// The text has no section of cells.
    MissingConnectivity,
    /// A cell or a boundary edge names a vertex that the text does not have.
    VertexOutOfRange,
    /// The centre of a cell lies on the line of one of its interfaces.
    DegenerateOrientation,
    /// A boundary edge is not an interface of any cell.
    UnknownBoundaryEdge,
}

/// A cell as the text declares it, in contracts.
pub struct ElementModel {
    /// The shape that the element type code names.
    pub shape: CellShape,
    /// The numbers of the vertices, in the order of the text.
    pub vertex_ids: Seq<usize>,
}

/// A boundary as the text declares it, in contracts.
pub struct MarkerModel {
    /// The name of the boundary.
    pub tag: Seq<u8>,
    /// The edges of the boundary, each by the numbers of its two vertices.
    pub edges: Seq<(usize, usize)>,
}

/// A mesh as the text declares it, in contracts.
pub struct MeshModel {
    /// The number of dimensions.
    pub dimensions: u8,
    /// The positions of the vertices.
    pub points: Seq<Vector3>,
    /// The cells.
    pub elements: Seq<ElementModel>,
    /// The boundaries, each name once.
    pub markers: Seq<MarkerModel>,
}

/// A cell as the text declares it.
#[derive(Debug, PartialEq, Eq)]
pub struct Su2Element {
    /// The shape that the element type code names.
    pub shape: CellShape,
    /// The numbers of the vertices, in the order of the text.
    pub vertex_ids: Vec<usize>,
}

/// A boundary as the text declares it.
#[derive(Debug, PartialEq, Eq)]
pub struct Su2Marker {
    /// The name of the boundary.
    pub tag: Vec<u8>,
    /// The edges of the boundary, each by the numbers of its two vertices.
    pub edges: Vec<(usize, usize)>,
}

/// A mesh as the text declares it: what the sections hold, before anything
/// is built from it.
#[derive(Debug, PartialEq, Eq)]
pub struct Su2Mesh {
    /// The number of dimensions.
    pub dimensions: u8,
    /// The positions of the vertices.
    pub points: Vec<Vector3>,
    /// The cells.
    pub elements: Vec<Su2Element>,
    /// The boundaries, each name once.
    pub markers: Vec<Su2Marker>,
}

impl View for Su2Element {
    type V = ElementModel;

    open spec fn view(&self) -> ElementModel {
        ElementModel { shape: self.shape, vertex_ids: self.vertex_ids@ }
    }
}

impl View for Su2Marker {
    type V = MarkerModel;

    open spec fn view(&self) -> MarkerModel {
        MarkerModel { tag: self.tag@, edges: self.edges@ }
    }
}

/// The elements of a list, in contracts.
pub open spec fn element_views(list: Seq<Su2Element>) -> Seq<ElementModel> {
    Seq::new(list.len(), |i: int| list[i]@)
}

/// The markers of a list, in contracts.
pub open spec fn marker_views(list: Seq<Su2Marker>) -> Seq<MarkerModel> {
    Seq::new(list.len(), |i: int| list[i]@)
}

impl View for Su2Mesh {
    type V = MeshModel;

    open spec fn view(&self) -> MeshModel {
        MeshModel {
            dimensions: self.dimensions,
            points: self.points@,
            elements: element_views(self.elements@),
            markers: marker_views(self.markers@),
        }
    }
}

/// The bytes `NDIME=`.
pub open spec fn ndime_key() -> Seq<u8> {
    seq![78u8, 68u8, 73u8, 77u8, 69u8, 61u8]
}

/// The bytes `NPOIN=`.
pub open spec fn npoin_key() -> Seq<u8> {
    seq![78u8, 80u8, 79u8, 73u8, 78u8, 61u8]
}

/// The bytes `NELEM=`.
pub open spec fn nelem_key() -> Seq<u8> {
    seq![78u8, 69u8, 76u8, 69u8, 77u8, 61u8]
}

/// The bytes `NMARK=`.
pub open spec fn nmark_key() -> Seq<u8> {
    seq![78u8, 77u8, 65u8, 82u8, 75u8, 61u8]
}

/// The bytes `MARKER_TAG`.
pub open spec fn marker_tag_key() -> Seq<u8> {
    seq![77u8, 65u8, 82u8, 75u8, 69u8, 82u8, 95u8, 84u8, 65u8, 71u8]
}

/// The bytes `MARKER_ELEMS`.
pub open spec fn marker_elems_key() -> Seq<u8> {
    seq![77u8, 65u8, 82u8, 75u8, 69u8, 82u8, 95u8, 69u8, 76u8, 69u8, 77u8, 83u8]
}

/// The numbers that a list of tokens denotes; `None` where one of them is
/// not an unsigned number.
pub open spec fn spec_index_list(tokens: Seq<Seq<u8>>) -> Option<Seq<usize>>
    decreases tokens.len(),
{
    if tokens.len() == 0 {
        Some(Seq::empty())
    } else {
        match (spec_index_list(tokens.drop_last()), spec_parse_usize(tokens.last())) {
            (Some(list), Some(value)) => Some(list.push(value)),
            _ => None,
        }
    }
}

/// The coordinates that a list of tokens denotes; the error of the first
/// token that denotes none.
pub open spec fn spec_decimal_list(tokens: Seq<Seq<u8>>) -> Result<Seq<i64>, NumberError>
    decreases tokens.len(),
{
    if tokens.len() == 0 {
        Ok(Seq::empty())
    } else {
        match spec_decimal_list(tokens.drop_last()) {
            Err(e) => Err(e),
            Ok(list) => match spec_parse_decimal(tokens.last()) {
                Err(e) => Err(e),
                Ok(value) => Ok(list.push(value)),
            },
        }
    }
}

/// The first `dim` tokens of a line, or all of them where there are fewer.
pub open spec fn leading_tokens(line: Seq<u8>, dim: int) -> Seq<Seq<u8>> {
    let all = spec_tokens(line);
    if dim <= 0 {
        Seq::empty()
    } else if dim < all.len() {
        all.take(dim)
    } else {
        all
    }
}

/// The position that the line of a vertex gives in `dim` dimensions: the
/// first `dim` tokens are the coordinates, what is missing is zero, what
/// follows is passed over.
pub open spec fn spec_point(line: Seq<u8>, dim: u8) -> Result<Vector3, Su2Error> {
    match spec_decimal_list(leading_tokens(line, dim as int)) {
        Err(NumberError::Malformed) => Err(Su2Error::InvalidPoint),
        Err(NumberError::OutOfRange) => Err(Su2Error::CoordinateOutOfRange),
        Ok(c) => if c.len() == 0 || c.len() > 3 {
            Err(Su2Error::InvalidPoint)
        } else {
            Ok(
                Vector3 {
                    x: c[0],
                    y: if c.len() >= 2 {
                        c[1]
                    } else {
                        0
                    },
                    z: if c.len() >= 3 {
                        c[2]
                    } else {
                        0
                    },
                },
            )
        },
    }
}

/// The shape that an element type code names.
pub open spec fn shape_of_code(code: usize) -> Option<CellShape> {
    if code == 5 {
        Some(CellShape::Triangle)
    } else if code == 9 {
        Some(CellShape::Quadrilateral)
    } else {
        None
    }
}

/// The cell that a line declares: the code of its shape, then the numbers
/// of as many vertices as the shape has.
pub open spec fn spec_element(line: Seq<u8>) -> Result<ElementModel, Su2Error> {
    match spec_index_list(spec_tokens(line)) {
        None => Err(Su2Error::InvalidElement),
        Some(list) => if list.len() == 0 {
            Err(Su2Error::InvalidElement)
        } else {
            match shape_of_code(list[0]) {
                None => Err(Su2Error::InvalidElement),
                Some(shape) => if list.len() == shape.spec_number_of_vertices() + 1 {
                    Ok(ElementModel { shape, vertex_ids: list.skip(1) })
                } else {
                    Err(Su2Error::InvalidElement)
                },
            }
        },
    }
}

/// The boundary edge that a line declares: the code of a line, then the
/// numbers of two vertices.
pub open spec fn spec_boundary_edge(line: Seq<u8>) -> Result<(usize, usize), Su2Error> {
    match spec_index_list(spec_tokens(line)) {
        None => Err(Su2Error::InvalidBoundaryElement),
        Some(list) => if list.len() == 3 && list[0] == 3 {
            Ok((list[1], list[2]))
        } else {
            Err(Su2Error::InvalidBoundaryElement)
        },
    }
}

/// The positions that the `n` lines from `from` on give; the error of the
/// first line that gives none, or that is missing.
pub open spec fn spec_points(lines: Seq<Seq<u8>>, from: int, n: nat, dim: u8) -> Result<
    Seq<Vector3>,
    Su2Error,
>
    decreases n,
{
    if n == 0 {
        Ok(Seq::empty())
    } else {
        match spec_points(lines, from, (n - 1) as nat, dim) {
            Err(e) => Err(e),
            Ok(list) => if from + n - 1 >= lines.len() {
                Err(Su2Error::UnexpectedEndOfFile)
            } else {
                match spec_point(lines[from + n - 1], dim) {
                    Err(e) => Err(e),
                    Ok(point) => Ok(list.push(point)),
                }
            },
        }
    }
}

/// The cells that the `n` lines from `from` on declare; the error of the
/// first line that declares none, or that is missing.
pub open spec fn spec_elements(lines: Seq<Seq<u8>>, from: int, n: nat) -> Result<
    Seq<ElementModel>,
    Su2Error,
>
    decreases n,
{
    if n == 0 {
        Ok(Seq::empty())
    } else {
        match spec_elements(lines, from, (n - 1) as nat) {
            Err(e) => Err(e),
            Ok(list) => if from + n - 1 >= lines.len() {
                Err(Su2Error::UnexpectedEndOfFile)
            } else {
                match spec_element(lines[from + n - 1]) {
                    Err(e) => Err(e),
                    Ok(element) => Ok(list.push(element)),
                }
            },
        }
    }
}

/// The boundary edges that the `n` lines from `from` on declare; the error
/// of the first line that declares none, or that is missing.
pub open spec fn spec_edges(lines: Seq<Seq<u8>>, from: int, n: nat) -> Result<
    Seq<(usize, usize)>,
    Su2Error,
>
    decreases n,
{
    if n == 0 {
        Ok(Seq::empty())
    } else {
        match spec_edges(lines, from, (n - 1) as nat) {
            Err(e) => Err(e),
            Ok(list) => if from + n - 1 >= lines.len() {
                Err(Su2Error::UnexpectedEndOfFile)
            } else {
                match spec_boundary_edge(lines[from + n - 1]) {
                    Err(e) => Err(e),
                    Ok(edge) => Ok(list.push(edge)),
                }
            },
        }
    }
}

/// The boundary that the lines from `at` on declare, and the line after it:
/// a line that starts with `MARKER_TAG` and names the boundary after its
/// first `=`, a line that starts with `MARKER_ELEMS` and gives the number of
/// edges, and the lines of the edges.
pub open spec fn spec_marker(lines: Seq<Seq<u8>>, at: int) -> Result<(MarkerModel, int), Su2Error> {
    if at < 0 || at >= lines.len() {
        Err(Su2Error::UnexpectedEndOfFile)
    } else if !marker_tag_key().is_prefix_of(lines[at]) {
        Err(Su2Error::MissingMarkerTag)
    } else {
        match after_first(lines[at], EQUALS) {
            None => Err(Su2Error::MissingMarkerTag),
            Some(tag) => if at + 1 >= lines.len() {
                Err(Su2Error::UnexpectedEndOfFile)
            } else if !marker_elems_key().is_prefix_of(lines[at + 1]) {
                Err(Su2Error::MissingMarkerElems)
            } else {
                match spec_key_value(lines[at + 1]) {
                    None => Err(Su2Error::InvalidCount),
                    Some(n) => match spec_edges(lines, at + 2, n as nat) {
                        Err(e) => Err(e),
                        Ok(edges) => Ok((MarkerModel { tag, edges }, at + 2 + n)),
                    },
                }
            },
        }
    }
}

/// The place of the boundary with the given name in a list.
pub open spec fn tag_position(markers: Seq<MarkerModel>, tag: Seq<u8>) -> Option<int>
    decreases markers.len(),
{
    if markers.len() == 0 {
        None
    } else {
        match tag_position(markers.drop_last(), tag) {
            Some(i) => Some(i),
            None => if markers.last().tag == tag {
                Some(markers.len() - 1)
            } else {
                None
            },
        }
    }
}

/// A list of boundaries with one more declared: it takes the place of the
/// one with the same name, or, where there is none, the place at the end.
pub open spec fn with_marker(markers: Seq<MarkerModel>, marker: MarkerModel) -> Seq<MarkerModel> {
    match tag_position(markers, marker.tag) {
        Some(i) => markers.update(i, marker),
        None => markers.push(marker),
    }
}

/// The list `markers` after the `n` boundaries that the lines from `from`
/// on declare, and the line after the last of them.
pub open spec fn spec_markers(
    lines: Seq<Seq<u8>>,
    from: int,
    n: nat,
    markers: Seq<MarkerModel>,
) -> Result<(Seq<MarkerModel>, int), Su2Error>
    decreases n,
{
    if n == 0 {
        Ok((markers, from))
    } else {
        match spec_markers(lines, from, (n - 1) as nat, markers) {
            Err(e) => Err(e),
            Ok((list, at)) => match spec_marker(lines, at) {
                Err(e) => Err(e),
                Ok((marker, next)) => Ok((with_marker(list, marker), next)),
            },
        }
    }
}

/// What has been read of a mesh.
pub struct ReadState {
    /// The number of dimensions, once the text has given it.
    pub dimensions: Option<u8>,
    /// The positions of the vertices so far.
    pub points: Seq<Vector3>,
    /// The cells so far.
    pub elements: Seq<ElementModel>,
    /// Whether a section of cells was seen.
    pub has_elements: bool,
    /// The boundaries so far.
    pub markers: Seq<MarkerModel>,
}

/// What has been read before the first line.
pub open spec fn initial_state() -> ReadState {
    ReadState {
        dimensions: None,
        points: Seq::empty(),
        elements: Seq::empty(),
        has_elements: false,
        markers: Seq::empty(),
    }
}

/// What has been read after the section that starts at the line `at`, and
/// the line after that section; a line that opens no section is a section
/// of its own that changes nothing.
#[verifier::opaque]
pub open spec fn spec_section(lines: Seq<Seq<u8>>, at: int, state: ReadState) -> Result<
    (ReadState, int),
    Su2Error,
> {
    let line = lines[at];
    if ndime_key().is_prefix_of(line) {
        match spec_key_value(line) {
            None => Err(Su2Error::InvalidCount),
            Some(d) => if d == 2 || d == 3 {
                Ok((ReadState { dimensions: Some(d as u8), ..state }, at + 1))
            } else {
                Err(Su2Error::InvalidDimensions)
            },
        }
    } else if npoin_key().is_prefix_of(line) {
        match state.dimensions {
            None => Err(Su2Error::MissingDimensions),
            Some(dim) => match spec_key_value(line) {
                None => Err(Su2Error::InvalidCount),
                Some(n) => match spec_points(lines, at + 1, n as nat, dim) {
                    Err(e) => Err(e),
                    Ok(points) => Ok(
                        (ReadState { points: state.points + points, ..state }, at + 1 + n),
                    ),
                },
            },
        }
    } else if nelem_key().is_prefix_of(line) {
        match spec_key_value(line) {
            None => Err(Su2Error::InvalidCount),
            Some(n) => match spec_elements(lines, at + 1, n as nat) {
                Err(e) => Err(e),
                Ok(elements) => Ok(
                    (
                        ReadState {
                            elements: state.elements + elements,
                            has_elements: true,
                            ..state
                        },
                        at + 1 + n,
                    ),
                ),
            },
        }
    } else if nmark_key().is_prefix_of(line) {
        match spec_key_value(line) {
            None => Err(Su2Error::InvalidCount),
            Some(n) => match spec_markers(lines, at + 1, n as nat, state.markers) {
                Err(e) => Err(e),
                Ok((markers, next)) => Ok((ReadState { markers, ..state }, next)),
            },
        }
    } else {
        Ok((state, at + 1))
    }
}

/// What has been read at the end of the text, going on from the line `at`.
pub open spec fn spec_sections(lines: Seq<Seq<u8>>, at: int, state: ReadState) -> Result<
    ReadState,
    Su2Error,
>
    decreases lines.len() - at,
{
    if at < 0 || at >= lines.len() {
        Ok(state)
    } else {
        let step = spec_section(lines, at, state);
        match step {
            Err(e) => Err(e),
            Ok(read) => if at < read.1 <= lines.len() {
                spec_sections(lines, read.1, read.0)
            } else {
                Ok(read.0)
            },
        }
    }
}

/// The lines of a text, each without the white space around it.
pub open spec fn trimmed_lines(text: Seq<u8>) -> Seq<Seq<u8>> {
    let all = spec_lines(text);
    Seq::new(all.len(), |i: int| spec_trim(all[i]))
}

/// The mesh that a text declares.
///
/// The first error met on the way through the text is the result. A text
/// that was read to its end declares no mesh where it has no section of
/// cells, or does not give the number of dimensions.
pub open spec fn spec_parse_su2(text: Seq<u8>) -> Result<MeshModel, Su2Error> {
    match spec_sections(trimmed_lines(text), 0, initial_state()) {
        Err(e) => Err(e),
        Ok(state) => if !state.has_elements {
            Err(Su2Error::MissingConnectivity)
        } else {
            match state.dimensions {
                None => Err(Su2Error::MissingDimensions),
                Some(dimensions) => Ok(
                    MeshModel {
                        dimensions,
                        points: state.points,
                        elements: state.elements,
                        markers: state.markers,
                    },
                ),
            }
        },
    }
}

/// Once a token is not a number, no longer list of tokens denotes numbers.
pub proof fn lemma_index_list_none_sticks(tokens: Seq<Seq<u8>>, k: int)
    requires
        0 <= k <= tokens.len(),
        spec_index_list(tokens.take(k)) is None,
    ensures
        spec_index_list(tokens) is None,
    decreases tokens.len() - k,
{
    if k == tokens.len() {
        assert(tokens.take(k) =~= tokens);
    } else {
        assert(tokens.take(k + 1).drop_last() =~= tokens.take(k));
        lemma_index_list_none_sticks(tokens, k + 1);
    }
}

/// Once a token is not a coordinate, every longer list of tokens has its
/// error.
pub proof fn lemma_decimal_list_error_sticks(tokens: Seq<Seq<u8>>, k: int)
    requires
        0 <= k <= tokens.len(),
        spec_decimal_list(tokens.take(k)) is Err,
    ensures
        spec_decimal_list(tokens) == spec_decimal_list(tokens.take(k)),
    decreases tokens.len() - k,
{
    if k == tokens.len() {
        assert(tokens.take(k) =~= tokens);
    } else {
        assert(tokens.take(k + 1).drop_last() =~= tokens.take(k));
        lemma_decimal_list_error_sticks(tokens, k + 1);
    }
}

/// Once a line gives no position, every longer run of lines has its error.
pub proof fn lemma_points_error_sticks(lines: Seq<Seq<u8>>, from: int, k: nat, n: nat, dim: u8)
    requires
        k <= n,
        spec_points(lines, from, k, dim) is Err,
    ensures
        spec_points(lines, from, n, dim) == spec_points(lines, from, k, dim),
    decreases n - k,
{
    if k < n {
        lemma_points_error_sticks(lines, from, k + 1, n, dim);
    }
}

/// Once a line declares no cell, every longer run of lines has its error.
pub proof fn lemma_elements_error_sticks(lines: Seq<Seq<u8>>, from: int, k: nat, n: nat)
    requires
        k <= n,
        spec_elements(lines, from, k) is Err,
    ensures
        spec_elements(lines, from, n) == spec_elements(lines, from, k),
    decreases n - k,
{
    if k < n {
        lemma_elements_error_sticks(lines, from, k + 1, n);
    }
}

/// Once a line declares no boundary edge, every longer run of lines has its
/// error.
pub proof fn lemma_edges_error_sticks(lines: Seq<Seq<u8>>, from: int, k: nat, n: nat)
    requires
        k <= n,
        spec_edges(lines, from, k) is Err,
    ensures
        spec_edges(lines, from, n) == spec_edges(lines, from, k),
    decreases n - k,
{
    if k < n {
        lemma_edges_error_sticks(lines, from, k + 1, n);
    }
}

/// Once a boundary is not declared as it should be, every longer run of
/// boundaries has its error.
pub proof fn lemma_markers_error_sticks(
    lines: Seq<Seq<u8>>,
    from: int,
    k: nat,
    n: nat,
    markers: Seq<MarkerModel>,
)
    requires
        k <= n,
        spec_markers(lines, from, k, markers) is Err,
    ensures
        spec_markers(lines, from, n, markers) == spec_markers(lines, from, k, markers),
    decreases n - k,
{
    if k < n {
        lemma_markers_error_sticks(lines, from, k + 1, n, markers);
    }
}

/// Reads the numbers of a line: every token is an unsigned number.
pub fn parse_vector_from_line(line: &[u8]) -> (list: Option<Vec<usize>>)
    ensures
        match spec_index_list(spec_tokens(line@)) {
            Some(expected) => list matches Some(found) && found@ == expected,
            None => list is None,
        },
{
    let parts = tokens(line);
    let n = parts.len();
    let ghost all = views(parts@);
    let mut list: Vec<usize> = Vec::with_capacity(n);
    let mut i: usize = 0;
    proof {
        assert(all.take(0) =~= Seq::<Seq<u8>>::empty());
    }
    while i < n
        invariant
            i <= n,
            n == parts@.len(),
            all == views(parts@),
            all == spec_tokens(line@),
            spec_index_list(all.take(i as int)) == Some(list@),
        decreases n - i,
    {
        proof {
            assert(all.take(i + 1).drop_last() =~= all.take(i as int));
            assert(all.take(i + 1).last() == parts@[i as int]@);
        }
        match parse_usize(parts[i].as_slice()) {
            None => {
                proof {
                    lemma_index_list_none_sticks(all, i + 1);
                }
                return None;
            },
            Some(value) => {
                list.push(value);
            },
        }
        i = i + 1;
    }
    proof {
        assert(all.take(n as int) =~= all);
    }
    Some(list)
}

/// Reads the coordinates of a line in `dim` dimensions: the first `dim`
/// tokens, or all of them where there are fewer.
pub fn parse_vector_from_line_with_dim(line: &[u8], dim: usize) -> (list: Result<
    Vec<i64>,
    NumberError,
>)
    ensures
        match spec_decimal_list(leading_tokens(line@, dim as int)) {
            Ok(expected) => list matches Ok(found) && found@ == expected,
            Err(e) => list matches Err(found) && found == e,
        },
{
    let parts = tokens(line);
    let n = if dim < parts.len() {
        dim
    } else {
        parts.len()
    };
    let ghost all = leading_tokens(line@, dim as int);
    proof {
        assert(all =~= views(parts@).take(n as int));
        assert(all.take(0) =~= Seq::<Seq<u8>>::empty());
    }
    let mut list: Vec<i64> = Vec::with_capacity(n);
    let mut i: usize = 0;
    while i < n
        invariant
            i <= n <= parts@.len(),
            all == views(parts@).take(n as int),
            all == leading_tokens(line@, dim as int),
            spec_decimal_list(all.take(i as int)) == Ok::<Seq<i64>, NumberError>(list@),
        decreases n - i,
    {
        proof {
            assert(all.take(i + 1).drop_last() =~= all.take(i as int));
            assert(all.take(i + 1).last() == parts@[i as int]@);
        }
        match parse_decimal(parts[i].as_slice()) {
            Err(e) => {
                proof {
                    lemma_decimal_list_error_sticks(all, i + 1);
                }
                return Err(e);
            },
            Ok(value) => {
                list.push(value);
            },
        }
        i = i + 1;
    }
    proof {
        assert(all.take(n as int) =~= all);
    }
    Ok(list)
}

/// Reads the position of a vertex from its line.
pub fn parse_point(line: &[u8], dim: u8) -> (point: Result<Vector3, Su2Error>)
    ensures
        point == spec_point(line@, dim),
{
    match parse_vector_from_line_with_dim(line, dim as usize) {
        Err(NumberError::Malformed) => Err(Su2Error::InvalidPoint),
        Err(NumberError::OutOfRange) => Err(Su2Error::CoordinateOutOfRange),
        Ok(coordinates) => {
            let n = coordinates.len();
            if n == 0 || n > 3 {
                Err(Su2Error::InvalidPoint)
            } else {
                Ok(Vector3::new_from_vec(coordinates))
            }
        },
    }
}

/// Reads a cell from its line.
pub fn parse_element(line: &[u8]) -> (element: Result<Su2Element, Su2Error>)
    ensures
        match spec_element(line@) {
            Ok(expected) => element matches Ok(found) && found@ == expected,
            Err(e) => element matches Err(found) && found == e,
        },
{
    match parse_vector_from_line(line) {
        None => Err(Su2Error::InvalidElement),
        Some(list) => {
            if list.len() == 0 {
                return Err(Su2Error::InvalidElement);
            }
            match CellShape::from_su2_element_type(list[0]) {
                Err(_) => Err(Su2Error::InvalidElement),
                Ok(shape) => {
                    if list.len() - 1 != shape.number_of_vertices() {
                        return Err(Su2Error::InvalidElement);
                    }
                    let mut vertex_ids: Vec<usize> = Vec::with_capacity(list.len() - 1);
                    let mut i: usize = 1;
                    while i < list.len()
                        invariant
                            1 <= i <= list@.len(),
                            vertex_ids@ == list@.subrange(1, i as int),
                        decreases list@.len() - i,
                    {
                        vertex_ids.push(list[i]);
                        proof {
                            assert(list@.subrange(1, i + 1) =~= list@.subrange(1, i as int).push(
                                list@[i as int],
                            ));
                        }
                        i = i + 1;
                    }
                    proof {
                        assert(list@.subrange(1, list@.len() as int) =~= list@.skip(1));
                    }
                    Ok(Su2Element { shape, vertex_ids })
                },
            }
        },
    }
}

/// Reads a boundary edge from its line.
pub fn parse_boundary_edge(line: &[u8]) -> (edge: Result<(usize, usize), Su2Error>)
    ensures
        edge == spec_boundary_edge(line@),
{
    match parse_vector_from_line(line) {
        None => Err(Su2Error::InvalidBoundaryElement),
        Some(list) => {
            if list.len() == 3 && list[0] == 3 {
                Ok((list[1], list[2]))
            } else {
                Err(Su2Error::InvalidBoundaryElement)
            }
        },
    }
}

/// The line at `at`, where the text has one.
pub fn next_line(lines: &Vec<Vec<u8>>, at: usize) -> (line: Option<&Vec<u8>>)
    ensures
        at < lines@.len() ==> line == Some(&lines@[at as int]),
        at >= lines@.len() ==> line is None,
{
    if at < lines.len() {
        Some(&lines[at])
    } else {
        None
    }
}

/// Reads the positions of `n` vertices from the lines that start at `from`.
pub fn read_points(lines: &Vec<Vec<u8>>, from: usize, n: usize, dim: u8) -> (points: Result<
    Vec<Vector3>,
    Su2Error,
>)
    requires
        from <= lines@.len(),
    ensures
        match spec_points(views(lines@), from as int, n as nat, dim) {
            Ok(expected) => points matches Ok(found) && found@ == expected && from + n
                <= lines@.len(),
            Err(e) => points matches Err(found) && found == e,
        },
{
    let total = lines.len();
    let mut points: Vec<Vector3> = Vec::new();
    let mut i: usize = 0;
    while i < n
        invariant
            i <= n,
            from + i <= lines@.len(),
            total == lines@.len(),
            spec_points(views(lines@), from as int, i as nat, dim) == Ok::<
                Seq<Vector3>,
                Su2Error,
            >(points@),
        decreases n - i,
    {
        match next_line(lines, from + i) {
            None => {
                proof {
                    lemma_points_error_sticks(
                        views(lines@),
                        from as int,
                        (i + 1) as nat,
                        n as nat,
                        dim,
                    );
                }
                return Err(Su2Error::UnexpectedEndOfFile);
            },
            Some(line) => match parse_point(line.as_slice(), dim) {
                Err(e) => {
                    proof {
                        lemma_points_error_sticks(
                            views(lines@),
                            from as int,
                            (i + 1) as nat,
                            n as nat,
                            dim,
                        );
                    }
                    return Err(e);
                },
                Ok(point) => {
                    points.push(point);
                },
            },
        }
        i = i + 1;
    }
    Ok(points)
}

/// Reads `n` cells from the lines that start at `from`.
pub fn read_elements(lines: &Vec<Vec<u8>>, from: usize, n: usize) -> (elements: Result<
    Vec<Su2Element>,
    Su2Error,
>)
    requires
        from <= lines@.len(),
    ensures
        match spec_elements(views(lines@), from as int, n as nat) {
            Ok(expected) => elements matches Ok(found) && element_views(found@) == expected
                && from + n <= lines@.len(),
            Err(e) => elements matches Err(found) && found == e,
        },
{
    let total = lines.len();
    let mut elements: Vec<Su2Element> = Vec::new();
    let mut i: usize = 0;
    proof {
        assert(element_views(elements@) =~= Seq::<ElementModel>::empty());
    }
    while i < n
        invariant
            i <= n,
            from + i <= lines@.len(),
            total == lines@.len(),
            spec_elements(views(lines@), from as int, i as nat) == Ok::<
                Seq<ElementModel>,
                Su2Error,
            >(element_views(elements@)),
        decreases n - i,
    {
        match next_line(lines, from + i) {
            None => {
                proof {
                    lemma_elements_error_sticks(
                        views(lines@),
                        from as int,
                        (i + 1) as nat,
                        n as nat,
                    );
                }
                return Err(Su2Error::UnexpectedEndOfFile);
            },
            Some(line) => match parse_element(line.as_slice()) {
                Err(e) => {
                    proof {
                        lemma_elements_error_sticks(
                            views(lines@),
                            from as int,
                            (i + 1) as nat,
                            n as nat,
                        );
                    }
                    return Err(e);
                },
                Ok(element) => {
                    let ghost before = element_views(elements@);
                    elements.push(element);
                    proof {
                        assert(element_views(elements@) =~= before.push(element@));
                    }
                },
            },
        }
        i = i + 1;
    }
    Ok(elements)
}

/// Reads `n` boundary edges from the lines that start at `from`.
pub fn read_edges(lines: &Vec<Vec<u8>>, from: usize, n: usize) -> (edges: Result<
    Vec<(usize, usize)>,
    Su2Error,
>)
    requires
        from <= lines@.len(),
    ensures
        match spec_edges(views(lines@), from as int, n as nat) {
            Ok(expected) => edges matches Ok(found) && found@ == expected && from + n
                <= lines@.len(),
            Err(e) => edges matches Err(found) && found == e,
        },
{
    let total = lines.len();
    let mut edges: Vec<(usize, usize)> = Vec::new();
    let mut i: usize = 0;
    while i < n
        invariant
            i <= n,
            from + i <= lines@.len(),
            total == lines@.len(),
            spec_edges(views(lines@), from as int, i as nat) == Ok::<
                Seq<(usize, usize)>,
                Su2Error,
            >(edges@),
        decreases n - i,
    {
        match next_line(lines, from + i) {
            None => {
                proof {
                    lemma_edges_error_sticks(views(lines@), from as int, (i + 1) as nat, n as nat);
                }
                return Err(Su2Error::UnexpectedEndOfFile);
            },
            Some(line) => match parse_boundary_edge(line.as_slice()) {
                Err(e) => {
                    proof {
                        lemma_edges_error_sticks(
                            views(lines@),
                            from as int,
                            (i + 1) as nat,
                            n as nat,
                        );
                    }
                    return Err(e);
                },
                Ok(edge) => {
                    edges.push(edge);
                },
            },
        }
        i = i + 1;
    }
    Ok(edges)
}

/// The bytes `MARKER_TAG`.
fn marker_tag_bytes() -> (key: Vec<u8>)
    ensures
        key@ == marker_tag_key(),
{
    let key: Vec<u8> = vec![77u8, 65u8, 82u8, 75u8, 69u8, 82u8, 95u8, 84u8, 65u8, 71u8];
    proof {
        assert(key@ =~= marker_tag_key());
    }
    key
}

/// The bytes `MARKER_ELEMS`.
fn marker_elems_bytes() -> (key: Vec<u8>)
    ensures
        key@ == marker_elems_key(),
{
    let key: Vec<u8> = vec![
        77u8,
        65u8,
        82u8,
        75u8,
        69u8,
        82u8,
        95u8,
        69u8,
        76u8,
        69u8,
        77u8,
        83u8,
    ];
    proof {
        assert(key@ =~= marker_elems_key());
    }
    key
}

/// Reads one boundary from the lines that start at `at`: its name, the
/// number of its edges, and the edges. Gives the boundary and the line
/// after it.
pub fn read_boundary(lines: &Vec<Vec<u8>>, at: usize) -> (boundary: Result<
    (Su2Marker, usize),
    Su2Error,
>)
    ensures
        match spec_marker(views(lines@), at as int) {
            Ok((expected, next)) => boundary matches Ok((found, after)) && found@ == expected
                && after == next && at < after <= lines@.len(),
            Err(e) => boundary matches Err(found) && found == e,
        },
{
    let n = lines.len();
    if at >= n {
        return Err(Su2Error::UnexpectedEndOfFile);
    }
    let tag_key = marker_tag_bytes();
    if !starts_with(lines[at].as_slice(), tag_key.as_slice()) {
        return Err(Su2Error::MissingMarkerTag);
    }
    match text_after_first(lines[at].as_slice(), EQUALS) {
        None => Err(Su2Error::MissingMarkerTag),
        Some(tag) => {
            if at + 1 >= n {
                return Err(Su2Error::UnexpectedEndOfFile);
            }
            let elems_key = marker_elems_bytes();
            if !starts_with(lines[at + 1].as_slice(), elems_key.as_slice()) {
                return Err(Su2Error::MissingMarkerElems);
            }
            match parse_key_value_pair(lines[at + 1].as_slice()) {
                None => Err(Su2Error::InvalidCount),
                Some(count) => match read_edges(lines, at + 2, count) {
                    Err(e) => Err(e),
                    Ok(edges) => Ok((Su2Marker { tag, edges }, at + 2 + count)),
                },
            }
        },
    }
}

/// Whether two texts hold the same bytes.
pub fn bytes_equal(a: &[u8], b: &[u8]) -> (equal: bool)
    ensures
        equal == (a@ == b@),
{
    let n = a.len();
    if n != b.len() {
        return false;
    }
    let mut i: usize = 0;
    while i < n
        invariant
            i <= n,
            n == a@.len(),
            n == b@.len(),
            forall|j: int| 0 <= j < i ==> a@[j] == b@[j],
        decreases n - i,
    {
        if a[i] != b[i] {
            return false;
        }
        i = i + 1;
    }
    proof {
        assert(a@ =~= b@);
    }
    true
}

/// The place of the boundary with the given name in a list.
pub fn find_marker(markers: &Vec<Su2Marker>, tag: &[u8]) -> (place: Option<usize>)
    ensures
        match tag_position(marker_views(markers@), tag@) {
            Some(i) => place == Some(i as usize) && 0 <= i < markers@.len(),
            None => place is None,
        },
{
    let n = markers.len();
    let ghost all = marker_views(markers@);
    let mut i: usize = 0;
    proof {
        assert(all.take(0) =~= Seq::<MarkerModel>::empty());
    }
    while i < n
        invariant
            i <= n,
            n == markers@.len(),
            all == marker_views(markers@),
            tag_position(all.take(i as int), tag@) is None,
        decreases n - i,
    {
        proof {
            assert(all.take(i + 1).drop_last() =~= all.take(i as int));
            assert(all.take(i + 1).last() == markers@[i as int]@);
        }
        if bytes_equal(markers[i].tag.as_slice(), tag) {
            proof {
                lemma_tag_position_sticks(all, tag@, i + 1);
            }
            return Some(i);
        }
        i = i + 1;
    }
    proof {
        assert(all.take(n as int) =~= all);
    }
    None
}

/// The first boundary of a name in a list stays the first in every longer
/// list.
pub proof fn lemma_tag_position_sticks(markers: Seq<MarkerModel>, tag: Seq<u8>, k: int)
    requires
        0 <= k <= markers.len(),
        tag_position(markers.take(k), tag) is Some,
    ensures
        tag_position(markers, tag) == tag_position(markers.take(k), tag),
    decreases markers.len() - k,
{
    if k == markers.len() {
        assert(markers.take(k) =~= markers);
    } else {
        assert(markers.take(k + 1).drop_last() =~= markers.take(k));
        lemma_tag_position_sticks(markers, tag, k + 1);
    }
}

/// Declares one more boundary in a list: it takes the place of the one with
/// the same name, or, where there is none, the place at the end.
pub fn add_marker(markers: &mut Vec<Su2Marker>, marker: Su2Marker)
    ensures
        marker_views(final(markers)@) == with_marker(marker_views(old(markers)@), marker@),
{
    let ghost before = marker_views(markers@);
    let ghost model = marker@;
    let count = markers.len();
    let place = find_marker(markers, marker.tag.as_slice());
    match place {
        Some(place) => {
            markers.set(place, marker);
            proof {
                assert(tag_position(before, model.tag) == Some(place as int));
                assert(marker_views(markers@) =~= before.update(place as int, model));
            }
        },
        None => {
            markers.push(marker);
            proof {
                assert(tag_position(before, model.tag) is None);
                assert(marker_views(markers@) =~= before.push(model));
            }
        },
    }
}

/// Reads `n` boundaries from the lines that start at `from` into `markers`.
/// Gives the line after the last of them.
pub fn read_boundaries(
    lines: &Vec<Vec<u8>>,
    from: usize,
    n: usize,
    markers: &mut Vec<Su2Marker>,
) -> (after: Result<usize, Su2Error>)
    requires
        from <= lines@.len(),
    ensures
        match spec_markers(views(lines@), from as int, n as nat, marker_views(old(markers)@)) {
            Ok((expected, next)) => after == Ok::<usize, Su2Error>(next as usize)
                && marker_views(final(markers)@) == expected && from <= next <= lines@.len(),
            Err(e) => after == Err::<usize, Su2Error>(e),
        },
{
    let mut at: usize = from;
    let mut i: usize = 0;
    while i < n
        invariant
            i <= n,
            from <= at <= lines@.len(),
            spec_markers(views(lines@), from as int, i as nat, marker_views(old(markers)@))
                == Ok::<(Seq<MarkerModel>, int), Su2Error>((marker_views(markers@), at as int)),
        decreases n - i,
    {
        match read_boundary(lines, at) {
            Err(e) => {
                proof {
                    lemma_markers_error_sticks(
                        views(lines@),
                        from as int,
                        (i + 1) as nat,
                        n as nat,
                        marker_views(old(markers)@),
                    );
                }
                return Err(e);
            },
            Ok((marker, next)) => {
                add_marker(markers, marker);
                at = next;
            },
        }
        i = i + 1;
    }
    Ok(at)
}

/// What has been read, from the parts that the reader keeps.
pub open spec fn read_state(
    dimensions: Option<u8>,
    points: Seq<Vector3>,
    elements: Seq<Su2Element>,
    has_elements: bool,
    markers: Seq<Su2Marker>,
) -> ReadState {
    ReadState {
        dimensions,
        points,
        elements: element_views(elements),
        has_elements,
        markers: marker_views(markers),
    }
}

/// The bytes of a section key.
fn key_bytes(a: u8, b: u8, c: u8, d: u8, e: u8) -> (key: Vec<u8>)
    ensures
        key@ == seq![a, b, c, d, e, 61u8],
{
    let key: Vec<u8> = vec![a, b, c, d, e, 61u8];
    proof {
        assert(key@ =~= seq![a, b, c, d, e, 61u8]);
    }
    key
}

/// Reads the section that starts at the line `at` into what has been read so
/// far. Gives the line after the section.
pub fn read_section(
    lines: &Vec<Vec<u8>>,
    at: usize,
    dimensions: &mut Option<u8>,
    points: &mut Vec<Vector3>,
    elements: &mut Vec<Su2Element>,
    has_elements: &mut bool,
    markers: &mut Vec<Su2Marker>,
) -> (after: Result<usize, Su2Error>)
    requires
        at < lines@.len(),
    ensures
        match spec_section(
            views(lines@),
            at as int,
            read_state(
                *old(dimensions),
                old(points)@,
                old(elements)@,
                *old(has_elements),
                old(markers)@,
            ),
        ) {
            Ok((state, next)) => after == Ok::<usize, Su2Error>(next as usize) && at < next
                <= lines@.len() && state == read_state(
                *final(dimensions),
                final(points)@,
                final(elements)@,
                *final(has_elements),
                final(markers)@,
            ),
            Err(e) => after == Err::<usize, Su2Error>(e),
        },
{
    proof {
        reveal(spec_section);
    }
    let total = lines.len();
    let line = lines[at].as_slice();
    let ndime = key_bytes(78, 68, 73, 77, 69);
    let npoin = key_bytes(78, 80, 79, 73, 78);
    let nelem = key_bytes(78, 69, 76, 69, 77);
    let nmark = key_bytes(78, 77, 65, 82, 75);
    if starts_with(line, ndime.as_slice()) {
        match parse_key_value_pair(line) {
            None => Err(Su2Error::InvalidCount),
            Some(d) => {
                if d == 2 || d == 3 {
                    *dimensions = Some(d as u8);
                    Ok(at + 1)
                } else {
                    Err(Su2Error::InvalidDimensions)
                }
            },
        }
    } else if starts_with(line, npoin.as_slice()) {
        match *dimensions {
            None => Err(Su2Error::MissingDimensions),
            Some(dim) => match parse_key_value_pair(line) {
                None => Err(Su2Error::InvalidCount),
                Some(n) => match read_points(lines, at + 1, n, dim) {
                    Err(e) => Err(e),
                    Ok(mut more) => {
                        points.append(&mut more);
                        Ok(at + 1 + n)
                    },
                },
            },
        }
    } else if starts_with(line, nelem.as_slice()) {
        match parse_key_value_pair(line) {
            None => Err(Su2Error::InvalidCount),
            Some(n) => match read_elements(lines, at + 1, n) {
                Err(e) => Err(e),
                Ok(mut more) => {
                    let ghost before = element_views(elements@);
                    let ghost added = element_views(more@);
                    elements.append(&mut more);
                    *has_elements = true;
                    proof {
                        assert(element_views(elements@) =~= before + added);
                    }
                    Ok(at + 1 + n)
                },
            },
        }
    } else if starts_with(line, nmark.as_slice()) {
        match parse_key_value_pair(line) {
            None => Err(Su2Error::InvalidCount),
            Some(n) => match read_boundaries(lines, at + 1, n, markers) {
                Err(e) => Err(e),
                Ok(next) => Ok(next),
            },
        }
    } else {
        Ok(at + 1)
    }
}

/// Reads the mesh that a text in the SU2 format declares.
///
/// The text is read line by line, each line without the white space around
/// it. The first error met is the result.
pub fn parse_su2(text: &[u8]) -> (mesh: Result<Su2Mesh, Su2Error>)
    ensures
        match spec_parse_su2(text@) {
            Ok(expected) => mesh matches Ok(found) && found@ == expected,
            Err(e) => mesh matches Err(found) && found == e,
        },
{
    let raw = lines(text);
    let n = raw.len();
    let mut trimmed: Vec<Vec<u8>> = Vec::with_capacity(n);
    let mut i: usize = 0;
    while i < n
        invariant
            i <= n,
            n == raw@.len(),
            views(raw@) == spec_lines(text@),
            trimmed@.len() == i,
            forall|j: int| 0 <= j < i ==> (#[trigger] trimmed@[j])@ == spec_trim(raw@[j]@),
        decreases n - i,
    {
        trimmed.push(trim(raw[i].as_slice()));
        i = i + 1;
    }
    proof {
        assert forall|j: int| 0 <= j < n implies views(trimmed@)[j] == trimmed_lines(text@)[j] by {
            assert(views(raw@)[j] == raw@[j]@);
        }
        assert(views(trimmed@) =~= trimmed_lines(text@));
    }
    let mut dimensions: Option<u8> = None;
    let mut points: Vec<Vector3> = Vec::new();
    let mut elements: Vec<Su2Element> = Vec::new();
    let mut has_elements: bool = false;
    let mut markers: Vec<Su2Marker> = Vec::new();
    let mut at: usize = 0;
    let ghost all = views(trimmed@);
    proof {
        assert(element_views(elements@) =~= Seq::<ElementModel>::empty());
        assert(marker_views(markers@) =~= Seq::<MarkerModel>::empty());
        assert(read_state(dimensions, points@, elements@, has_elements, markers@)
            == initial_state());
    }
    while at < n
        invariant
            at <= n,
            n == trimmed@.len(),
            all == views(trimmed@),
            all == trimmed_lines(text@),
            spec_sections(all, 0, initial_state()) == spec_sections(
                all,
                at as int,
                read_state(dimensions, points@, elements@, has_elements, markers@),
            ),
        decreases n - at,
    {
        match read_section(
            &trimmed,
            at,
            &mut dimensions,
            &mut points,
            &mut elements,
            &mut has_elements,
            &mut markers,
        ) {
            Err(e) => {
                return Err(e);
            },
            Ok(next) => {
                at = next;
            },
        }
    }
    if !has_elements {
        return Err(Su2Error::MissingConnectivity);
    }
    match dimensions {
        None => Err(Su2Error::MissingDimensions),
        Some(dimensions) => Ok(Su2Mesh { dimensions, points, elements, markers }),
    }
}

/// The line of a section: its key and the number of lines that belong to it.
pub open spec fn keyed_line(key: Seq<u8>, n: nat) -> Seq<u8> {
    key + nat_digits(n)
}

/// The line of a vertex: its first two coordinates, and in three dimensions
/// the third, with a space between them.
pub open spec fn point_line(point: Vector3, dim: u8) -> Seq<u8> {
    let flat = spec_format_decimal(point.x as int) + seq![32u8] + spec_format_decimal(
        point.y as int,
    );
    if dim == 3 {
        flat + seq![32u8] + spec_format_decimal(point.z as int)
    } else {
        flat
    }
}

/// The numbers of a list in decimal, a space before each.
pub open spec fn index_tail(ids: Seq<usize>) -> Seq<u8>
    decreases ids.len(),
{
    if ids.len() == 0 {
        Seq::empty()
    } else {
        index_tail(ids.drop_last()) + seq![32u8] + nat_digits(ids.last() as nat)
    }
}

/// The line of a cell or of a boundary edge: the code of its shape, then the
/// numbers of its vertices.
pub open spec fn index_line(code: nat, ids: Seq<usize>) -> Seq<u8> {
    nat_digits(code) + index_tail(ids)
}

/// The lines of a boundary: its name, the number of its edges, its edges.
pub open spec fn marker_lines(marker: MarkerModel) -> Seq<Seq<u8>> {
    seq![
        marker_tag_key() + seq![61u8] + marker.tag,
        keyed_line(marker_elems_key() + seq![61u8], marker.edges.len()),
    ] + Seq::new(
        marker.edges.len(),
        |i: int| index_line(3, seq![marker.edges[i].0, marker.edges[i].1]),
    )
}

/// The lines of a list of boundaries.
pub open spec fn markers_lines(markers: Seq<MarkerModel>) -> Seq<Seq<u8>>
    decreases markers.len(),
{
    if markers.len() == 0 {
        Seq::empty()
    } else {
        markers_lines(markers.drop_last()) + marker_lines(markers.last())
    }
}

/// The lines of the vertices of a mesh.
pub open spec fn point_lines(points: Seq<Vector3>, dim: u8) -> Seq<Seq<u8>> {
    Seq::new(points.len(), |i: int| point_line(points[i], dim))
}

/// The lines of the cells of a mesh.
pub open spec fn element_lines(elements: Seq<ElementModel>) -> Seq<Seq<u8>> {
    Seq::new(
        elements.len(),
        |i: int| index_line(elements[i].shape.spec_su2_element_type(), elements[i].vertex_ids),
    )
}

/// The lines of a mesh: the number of dimensions, the vertices, the cells
/// and the boundaries, each section under its key.
pub open spec fn su2_lines(mesh: MeshModel) -> Seq<Seq<u8>> {
    seq![keyed_line(ndime_key(), mesh.dimensions as nat)] + seq![
        keyed_line(npoin_key(), mesh.points.len()),
    ] + point_lines(mesh.points, mesh.dimensions) + seq![
        keyed_line(nelem_key(), mesh.elements.len()),
    ] + element_lines(mesh.elements) + seq![keyed_line(nmark_key(), mesh.markers.len())]
        + markers_lines(mesh.markers)
}

/// The text of a list of lines: each line followed by a line end.
pub open spec fn join_lines(lines: Seq<Seq<u8>>) -> Seq<u8>
    decreases lines.len(),
{
    if lines.len() == 0 {
        Seq::empty()
    } else {
        join_lines(lines.drop_last()) + lines.last() + seq![10u8]
    }
}

/// The text of a mesh in the SU2 format.
pub open spec fn spec_write_su2(mesh: MeshModel) -> Seq<u8> {
    join_lines(su2_lines(mesh))
}

/// Appends a line and its line end to a text.
fn push_line(text: &mut Vec<u8>, line: &Vec<u8>, Ghost(written): Ghost<Seq<Seq<u8>>>)
    requires
        old(text)@ == join_lines(written),
    ensures
        final(text)@ == join_lines(written.push(line@)),
{
    append_bytes(text, line.as_slice());
    text.push(10u8);
    proof {
        assert(written.push(line@).drop_last() =~= written);
    }
}

/// The line of a section.
fn make_keyed_line(key: Vec<u8>, n: usize) -> (line: Vec<u8>)
    ensures
        line@ == keyed_line(key@, n as nat),
{
    let mut line = key;
    let digits = format_usize(n);
    append_bytes(&mut line, digits.as_slice());
    line
}

/// The line of a vertex.
fn make_point_line(point: &Vector3, dim: u8) -> (line: Vec<u8>)
    ensures
        line@ == point_line(*point, dim),
{
    let mut line = format_decimal(point.x);
    line.push(32u8);
    let y = format_decimal(point.y);
    append_bytes(&mut line, y.as_slice());
    if dim == 3 {
        line.push(32u8);
        let z = format_decimal(point.z);
        append_bytes(&mut line, z.as_slice());
    }
    proof {
        assert(line@ =~= point_line(*point, dim));
    }
    line
}

/// The line of a cell or of a boundary edge.
fn make_index_line(code: usize, ids: &[usize]) -> (line: Vec<u8>)
    ensures
        line@ == index_line(code as nat, ids@),
{
    let mut line = format_usize(code);
    let n = ids.len();
    let mut i: usize = 0;
    proof {
        assert(ids@.take(0) =~= Seq::<usize>::empty());
        assert(line@ + Seq::<u8>::empty() =~= line@);
    }
    while i < n
        invariant
            i <= n,
            n == ids@.len(),
            line@ == nat_digits(code as nat) + index_tail(ids@.take(i as int)),
        decreases n - i,
    {
        let ghost before = line@;
        line.push(32u8);
        let digits = format_usize(ids[i]);
        append_bytes(&mut line, digits.as_slice());
        proof {
            assert(ids@.take(i + 1).drop_last() =~= ids@.take(i as int));
            assert(line@ =~= nat_digits(code as nat) + index_tail(ids@.take(i + 1)));
        }
        i = i + 1;
    }
    proof {
        assert(ids@.take(n as int) =~= ids@);
    }
    line
}

/// Appends the lines of a boundary to a text.
fn push_marker(text: &mut Vec<u8>, marker: &Su2Marker, Ghost(written): Ghost<Seq<Seq<u8>>>)
    requires
        old(text)@ == join_lines(written),
    ensures
        final(text)@ == join_lines(written + marker_lines(marker@)),
{
    let mut tag_line = marker_tag_bytes();
    tag_line.push(61u8);
    append_bytes(&mut tag_line, marker.tag.as_slice());
    push_line(text, &tag_line, Ghost(written));
    let mut elems_key = marker_elems_bytes();
    elems_key.push(61u8);
    let n = marker.edges.len();
    let elems_line = make_keyed_line(elems_key, n);
    let ghost head = written.push(tag_line@);
    push_line(text, &elems_line, Ghost(head));
    let ghost expected = marker_lines(marker@);
    let ghost start = head.push(elems_line@);
    let mut i: usize = 0;
    proof {
        assert(tag_line@ =~= marker_tag_key() + seq![61u8] + marker.tag@);
        assert(elems_key@ =~= marker_elems_key() + seq![61u8]);
        assert(expected[0] == tag_line@);
        assert(expected[1] == elems_line@);
        assert(expected.take(2) =~= seq![tag_line@, elems_line@]);
        assert(start =~= written + expected.take(2));
    }
    while i < n
        invariant
            i <= n,
            n == marker.edges@.len(),
            expected == marker_lines(marker@),
            text@ == join_lines(written + expected.take(2 + i)),
        decreases n - i,
    {
        let (a, b) = marker.edges[i];
        let mut pair: Vec<usize> = Vec::with_capacity(2);
        pair.push(a);
        pair.push(b);
        let line = make_index_line(3, pair.as_slice());
        push_line(text, &line, Ghost(written + expected.take(2 + i)));
        proof {
            assert(pair@ =~= seq![a, b]);
            assert(expected[2 + i] == line@);
            assert((written + expected.take(2 + i)).push(line@) =~= written + expected.take(
                2 + i + 1,
            ));
        }
        i = i + 1;
    }
    proof {
        assert(expected.take(2 + n) =~= expected);
    }
}

/// Writes a mesh in the SU2 format: the number of dimensions, the vertices,
/// the cells and the boundaries.
pub fn write_su2(mesh: &Su2Mesh) -> (text: Vec<u8>)
    ensures
        text@ == spec_write_su2(mesh@),
{
    let mut text: Vec<u8> = Vec::new();
    let ghost model = mesh@;
    let ghost mut written: Seq<Seq<u8>> = Seq::empty();
    let line = make_keyed_line(key_bytes(78, 68, 73, 77, 69), mesh.dimensions as usize);
    push_line(&mut text, &line, Ghost(written));
    proof {
        written = written.push(line@);
    }
    let n_points = mesh.points.len();
    let line = make_keyed_line(key_bytes(78, 80, 79, 73, 78), n_points);
    push_line(&mut text, &line, Ghost(written));
    proof {
        written = written.push(line@);
    }
    let ghost head = written;
    let ghost points = point_lines(model.points, model.dimensions);
    let mut i: usize = 0;
    proof {
        assert(head + points.take(0) =~= head);
    }
    while i < n_points
        invariant
            i <= n_points,
            n_points == mesh.points@.len(),
            model == mesh@,
            points == point_lines(model.points, model.dimensions),
            text@ == join_lines(head + points.take(i as int)),
        decreases n_points - i,
    {
        let line = make_point_line(&mesh.points[i], mesh.dimensions);
        push_line(&mut text, &line, Ghost(head + points.take(i as int)));
        proof {
            assert((head + points.take(i as int)).push(line@) =~= head + points.take(i + 1));
        }
        i = i + 1;
    }
    proof {
        assert(points.take(n_points as int) =~= points);
        written = head + points;
    }
    let n_elements = mesh.elements.len();
    let line = make_keyed_line(key_bytes(78, 69, 76, 69, 77), n_elements);
    push_line(&mut text, &line, Ghost(written));
    proof {
        written = written.push(line@);
    }
    let ghost head = written;
    let ghost elements = element_lines(model.elements);
    let mut i: usize = 0;
    proof {
        assert(head + elements.take(0) =~= head);
    }
    while i < n_elements
        invariant
            i <= n_elements,
            n_elements == mesh.elements@.len(),
            model == mesh@,
            elements == element_lines(model.elements),
            text@ == join_lines(head + elements.take(i as int)),
        decreases n_elements - i,
    {
        let element = &mesh.elements[i];
        let line = make_index_line(
            element.shape.to_su2_element_type(),
            element.vertex_ids.as_slice(),
        );
        push_line(&mut text, &line, Ghost(head + elements.take(i as int)));
        proof {
            assert(model.elements[i as int] == element@);
            assert((head + elements.take(i as int)).push(line@) =~= head + elements.take(i + 1));
        }
        i = i + 1;
    }
    proof {
        assert(elements.take(n_elements as int) =~= elements);
        written = head + elements;
    }
    let n_markers = mesh.markers.len();
    let line = make_keyed_line(key_bytes(78, 77, 65, 82, 75), n_markers);
    push_line(&mut text, &line, Ghost(written));
    proof {
        written = written.push(line@);
    }
    let ghost head = written;
    let mut i: usize = 0;
    proof {
        assert(model.markers.take(0) =~= Seq::<MarkerModel>::empty());
        assert(head + markers_lines(model.markers.take(0)) =~= head);
    }
    while i < n_markers
        invariant
            i <= n_markers,
            n_markers == mesh.markers@.len(),
            model == mesh@,
            text@ == join_lines(head + markers_lines(model.markers.take(i as int))),
        decreases n_markers - i,
    {
        let ghost before = head + markers_lines(model.markers.take(i as int));
        push_marker(&mut text, &mesh.markers[i], Ghost(before));
        proof {
            assert(model.markers.take(i + 1).drop_last() =~= model.markers.take(i as int));
            assert(model.markers.take(i + 1).last() == mesh.markers@[i as int]@);
            assert(before + marker_lines(mesh.markers@[i as int]@) =~= head + markers_lines(
                model.markers.take(i + 1),
            ));
        }
        i = i + 1;
    }
    proof {
        assert(model.markers.take(n_markers as int) =~= model.markers);
        assert(head + markers_lines(model.markers) =~= su2_lines(model));
    }
    text
}

/// The block that a text in the SU2 format gives: the mesh that the text
/// declares, built.
pub open spec fn spec_read_su2(text: Seq<u8>) -> Result<BlockModel, Su2Error> {
    match spec_parse_su2(text) {
        Err(e) => Err(e),
        Ok(mesh) => spec_build(mesh),
    }
}

/// Reads a block from a text in the SU2 format, under the number `id`.
///
/// The vertices get their numbers in the order of the text, and so do the
/// cells. An interface gets its number when the first cell declares it.
pub fn read_su2(text: &[u8], id: usize) -> (block: Result<GridBlock, Su2Error>)
    ensures
        match spec_read_su2(text@) {
            Err(e) => block matches Err(found) && found == e,
            Ok(model) => block matches Ok(built) && built.model() == model
                && built.spec_block_id() == id && built.consistent(),
        },
{
    match parse_su2(text) {
        Err(e) => Err(e),
        Ok(mesh) => GridBlock::from_mesh(&mesh, id),
    }
}

} // verus!
