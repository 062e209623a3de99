//! Reading back what was written in the SU2 format.

use crate::common::number::is_digit;
use crate::common::number::is_number_byte;
use crate::common::number::lemma_format_decimal_bytes;
use crate::common::number::lemma_nat_digits;
use crate::common::number::lemma_parse_format_decimal;
use crate::common::number::lemma_parse_format_usize;
use crate::common::number::nat_digits;
use crate::common::number::spec_format_decimal;
use crate::common::number::spec_parse_decimal;
use crate::common::number::NumberError;
use crate::common::number::COORD_MAX;
use crate::common::text::holds;
use crate::common::text::is_whitespace;
use crate::common::text::join_with;
use crate::common::text::lemma_after_first_of_concat;
use crate::common::text::lemma_after_last_of_concat;
use crate::common::text::lemma_split_of_join;
use crate::common::text::lemma_tokens_of_join;
use crate::common::text::lemma_trim_nothing;
use crate::common::text::spec_key_value;
use crate::common::text::spec_lines;
use crate::common::text::spec_tokens;
use crate::common::text::spec_trim;
use crate::common::vector3::Vector3;
use crate::grid::block::block_markers;
use crate::grid::block::interface_edges;
use crate::grid::block::block_can_be_rebuilt;
use crate::grid::block::lemma_any_block_built_again;
use crate::grid::block::lemma_build_again;
use crate::grid::block::BlockModel;
use crate::grid::block::model_mesh;
use crate::grid::block::spec_build;
use crate::grid::block::spec_mesh_of;
use crate::grid::block::GridBlock;
use crate::grid::cell::CellShape;
use crate::grid::interface::edges_of;
use crate::grid::interface::GridInterface;
use crate::grid::topology::ids_in_range;
use crate::grid::Block;
use crate::grid::Boundary;
use crate::grid::Cell;
use crate::grid::Interface;
use crate::grid::su2::element_lines;
use crate::grid::su2::index_line;
use crate::grid::su2::index_tail;
use crate::grid::su2::initial_state;
use crate::grid::su2::join_lines;
use crate::grid::su2::keyed_line;
use crate::grid::su2::leading_tokens;
use crate::grid::su2::marker_elems_key;
use crate::grid::su2::marker_lines;
use crate::grid::su2::marker_tag_key;
use crate::grid::su2::markers_lines;
use crate::grid::su2::ndime_key;
use crate::grid::su2::nelem_key;
use crate::grid::su2::nmark_key;
use crate::grid::su2::npoin_key;
use crate::grid::su2::point_line;
use crate::grid::su2::point_lines;
use crate::grid::su2::spec_boundary_edge;
use crate::grid::su2::spec_decimal_list;
use crate::grid::su2::spec_edges;
use crate::grid::su2::spec_element;
use crate::grid::su2::spec_elements;
use crate::grid::su2::spec_index_list;
use crate::grid::su2::spec_marker;
use crate::grid::su2::spec_markers;
use crate::grid::su2::spec_parse_su2;
use crate::grid::su2::spec_point;
use crate::grid::su2::spec_points;
use crate::grid::su2::spec_read_su2;
use crate::grid::su2::spec_section;
use crate::grid::su2::spec_sections;
use crate::grid::su2::spec_write_su2;
use crate::grid::su2::su2_lines;
use crate::grid::su2::tag_position;
use crate::grid::su2::trimmed_lines;
use crate::grid::su2::ElementModel;
use crate::grid::su2::MarkerModel;
use crate::grid::su2::MeshModel;
use crate::grid::su2::ReadState;
use crate::grid::su2::Su2Error;
use vstd::prelude::*;

verus! {

/// Joined pieces with one more piece are the joined pieces, the separator
/// and the piece.
pub proof fn lemma_join_with_push(pieces: Seq<Seq<u8>>, last: Seq<u8>, sep: u8)
    requires
        pieces.len() >= 1,
    ensures
        join_with(pieces.push(last), sep) == join_with(pieces, sep) + seq![sep] + last,
    decreases pieces.len(),
{
    let all = pieces.push(last);
    if pieces.len() == 1 {
        assert(all.skip(1) =~= seq![last]);
        assert(join_with(all.skip(1), sep) == last);
    } else {
        let rest = pieces.skip(1);
        lemma_join_with_push(rest, last, sep);
        assert(all.skip(1) =~= rest.push(last));
        assert(pieces[0] + seq![sep] + (join_with(rest, sep) + seq![sep] + last) =~= (pieces[0]
            + seq![sep] + join_with(rest, sep)) + seq![sep] + last);
    }
}

/// The text of a list of lines is the lines and an empty piece joined by
/// line ends.
pub proof fn lemma_join_lines(lines: Seq<Seq<u8>>)
    ensures
        join_lines(lines) == join_with(lines.push(Seq::empty()), 10u8),
    decreases lines.len(),
{
    let empty = Seq::<u8>::empty();
    if lines.len() == 0 {
        assert(lines.push(empty)[0] == empty);
    } else {
        let shorter = lines.drop_last();
        let last = lines.last();
        lemma_join_lines(shorter);
        assert(shorter.push(last) =~= lines);
        lemma_join_with_push(lines, empty, 10u8);
        assert(join_with(lines, 10u8) + seq![10u8] + empty =~= join_with(lines, 10u8) + seq![
            10u8,
        ]);
        if shorter.len() == 0 {
            assert(lines[0] == last);
            assert(join_with(shorter.push(empty), 10u8) == empty);
            assert(empty + last + seq![10u8] =~= last + seq![10u8]);
        } else {
            lemma_join_with_push(shorter, last, 10u8);
            lemma_join_with_push(shorter, empty, 10u8);
            assert((join_with(shorter, 10u8) + seq![10u8] + empty) + last + seq![10u8] =~= (
            join_with(shorter, 10u8) + seq![10u8] + last) + seq![10u8]);
        }
    }
}

/// The lines of the text of a list of lines are the lines, where no line
/// holds a line end.
pub proof fn lemma_lines_of_join(lines: Seq<Seq<u8>>)
    requires
        forall|i: int| 0 <= i < lines.len() ==> !holds(#[trigger] lines[i], 10u8),
    ensures
        spec_lines(join_lines(lines)) == lines,
{
    let empty = Seq::<u8>::empty();
    let pieces = lines.push(empty);
    lemma_join_lines(lines);
    assert forall|i: int| 0 <= i < pieces.len() implies !holds(#[trigger] pieces[i], 10u8) by {
        if i < lines.len() {
            assert(pieces[i] == lines[i]);
        }
    }
    lemma_split_of_join(pieces, 10u8);
    assert(pieces.last() == empty);
    assert(pieces.drop_last() =~= lines);
}

/// Whether every byte of a text is a digit, `-`, `.` or a space, and the
/// text neither starts nor ends with a space.
pub open spec fn is_number_line(s: Seq<u8>) -> bool {
    &&& s.len() > 0
    &&& s[0] != 32
    &&& s[s.len() - 1] != 32
    &&& forall|i: int| 0 <= i < s.len() ==> is_number_byte(#[trigger] s[i]) || s[i] == 32
}

/// A line of number bytes and spaces holds no line end and is not changed
/// when white space is cut off around it.
pub proof fn lemma_number_line(s: Seq<u8>)
    requires
        is_number_line(s),
    ensures
        !holds(s, 10u8),
        spec_trim(s) == s,
{
    if holds(s, 10u8) {
        let i = choose|i: int| 0 <= i < s.len() && #[trigger] s[i] == 10u8;
        assert(is_number_byte(s[i]) || s[i] == 32);
    }
    assert(is_number_byte(s[0]) || s[0] == 32);
    assert(is_number_byte(s[s.len() - 1]) || s[s.len() - 1] == 32);
    lemma_trim_nothing(s);
}

/// The digits of a number hold no byte that is not a digit.
pub proof fn lemma_digits_hold_no(n: nat, b: u8)
    requires
        !is_digit(b),
    ensures
        !holds(nat_digits(n), b),
        nat_digits(n).len() > 0,
{
    lemma_nat_digits(n);
    if holds(nat_digits(n), b) {
        let i = choose|i: int| 0 <= i < nat_digits(n).len() && #[trigger] nat_digits(n)[i] == b;
        assert(is_digit(nat_digits(n)[i]));
    }
}

/// The number of a section line is read back: after a key that ends with
/// `=`, the digits of a number denote that number.
pub proof fn lemma_key_value_of_keyed_line(key: Seq<u8>, n: usize)
    requires
        key.len() > 0,
        key[key.len() - 1] == 61,
    ensures
        spec_key_value(keyed_line(key, n as nat)) == Some(n),
{
    let digits = nat_digits(n as nat);
    lemma_nat_digits(n as nat);
    lemma_digits_hold_no(n as nat, 61u8);
    lemma_after_last_of_concat(key, digits, 61u8);
    assert(is_digit(digits[0]));
    assert(is_digit(digits[digits.len() - 1]));
    lemma_trim_nothing(digits);
    lemma_parse_format_usize(n);
}

/// The digits of each number of a list.
pub open spec fn digit_tokens(ids: Seq<usize>) -> Seq<Seq<u8>> {
    Seq::new(ids.len(), |i: int| nat_digits(ids[i] as nat))
}

/// The line of a cell or a boundary edge is its tokens joined by spaces.
pub proof fn lemma_index_line_joined(code: nat, ids: Seq<usize>)
    ensures
        index_line(code, ids) == join_with(seq![nat_digits(code)] + digit_tokens(ids), 32u8),
    decreases ids.len(),
{
    let head = seq![nat_digits(code)];
    if ids.len() == 0 {
        assert(head + digit_tokens(ids) =~= head);
        assert(nat_digits(code) + index_tail(ids) =~= nat_digits(code));
    } else {
        let shorter = ids.drop_last();
        lemma_index_line_joined(code, shorter);
        let before = head + digit_tokens(shorter);
        let last = nat_digits(ids.last() as nat);
        assert(before.push(last) =~= head + digit_tokens(ids));
        lemma_join_with_push(before, last, 32u8);
        assert(nat_digits(code) + (index_tail(shorter) + seq![32u8] + last) =~= (nat_digits(code)
            + index_tail(shorter)) + seq![32u8] + last);
    }
}

/// The digits of the numbers of a list denote the numbers.
pub proof fn lemma_index_list_of_digits(ids: Seq<usize>)
    ensures
        spec_index_list(digit_tokens(ids)) == Some(ids),
    decreases ids.len(),
{
    if ids.len() == 0 {
        assert(digit_tokens(ids) =~= Seq::<Seq<u8>>::empty());
    } else {
        let shorter = ids.drop_last();
        lemma_index_list_of_digits(shorter);
        assert(digit_tokens(ids).drop_last() =~= digit_tokens(shorter));
        assert(digit_tokens(ids).last() == nat_digits(ids.last() as nat));
        lemma_parse_format_usize(ids.last());
        assert(shorter.push(ids.last()) =~= ids);
    }
}

/// The numbers of the line of a cell or a boundary edge are the code and
/// the numbers of the vertices.
pub proof fn lemma_index_line_read(code: usize, ids: Seq<usize>)
    ensures
        spec_index_list(spec_tokens(index_line(code as nat, ids))) == Some(seq![code] + ids),
        is_number_line(index_line(code as nat, ids)),
{
    let all = seq![code] + ids;
    let tokens = seq![nat_digits(code as nat)] + digit_tokens(ids);
    assert(tokens =~= digit_tokens(all));
    lemma_index_line_joined(code as nat, ids);
    assert forall|i: int| 0 <= i < tokens.len() implies (#[trigger] tokens[i]).len() > 0 && !holds(
        tokens[i],
        32u8,
    ) by {
        lemma_digits_hold_no(all[i] as nat, 32u8);
    }
    lemma_tokens_of_join(tokens);
    lemma_index_list_of_digits(all);
    assert forall|i: int| 0 <= i < tokens.len() implies (#[trigger] tokens[i]).len() > 0
        && forall|k: int| 0 <= k < tokens[i].len() ==> is_number_byte(#[trigger] tokens[i][k]) by {
        lemma_nat_digits(all[i] as nat);
        assert forall|k: int| 0 <= k < tokens[i].len() implies is_number_byte(
            #[trigger] tokens[i][k],
        ) by {
            assert(is_digit(nat_digits(all[i] as nat)[k]));
        }
    }
    lemma_joined_digits_line(tokens);
}

/// Texts of number bytes joined by spaces are a line of number bytes and
/// spaces.
pub proof fn lemma_joined_digits_line(tokens: Seq<Seq<u8>>)
    requires
        tokens.len() >= 1,
        forall|i: int|
            0 <= i < tokens.len() ==> (#[trigger] tokens[i]).len() > 0 && forall|k: int|
                0 <= k < tokens[i].len() ==> is_number_byte(#[trigger] tokens[i][k]),
    ensures
        is_number_line(join_with(tokens, 32u8)),
    decreases tokens.len(),
{
    if tokens.len() > 1 {
        let rest = tokens.skip(1);
        assert forall|i: int| 0 <= i < rest.len() implies (#[trigger] rest[i]).len() > 0
            && forall|k: int| 0 <= k < rest[i].len() ==> is_number_byte(#[trigger] rest[i][k]) by {
            assert(rest[i] == tokens[i + 1]);
        }
        lemma_joined_digits_line(rest);
        let tail = join_with(rest, 32u8);
        let s = tokens[0] + seq![32u8] + tail;
        assert(s[0] == tokens[0][0]);
        assert(s[s.len() - 1] == tail[tail.len() - 1]);
        assert forall|i: int| 0 <= i < s.len() implies is_number_byte(#[trigger] s[i]) || s[i]
            == 32 by {
            if i < tokens[0].len() {
                assert(s[i] == tokens[0][i]);
            } else if i > tokens[0].len() {
                assert(s[i] == tail[i - tokens[0].len() - 1]);
            }
        }
    } else {
        let s = tokens[0];
        assert(is_number_byte(s[0]));
        assert(is_number_byte(s[s.len() - 1]));
    }
}

/// Whether a position can be written in `dim` dimensions and read back: it
/// lies within the range of coordinates, and in two dimensions it lies in
/// the plane.
pub open spec fn point_writable(point: Vector3, dim: u8) -> bool {
    &&& point.bounded(COORD_MAX as int)
    &&& dim != 3 ==> point.z == 0
}

/// Whether the name of a boundary can be written and read back: it holds no
/// line end and does not end with white space.
pub open spec fn tag_writable(tag: Seq<u8>) -> bool {
    &&& !holds(tag, 10u8)
    &&& tag.len() > 0 ==> !is_whitespace(tag[tag.len() - 1])
}

/// Whether a mesh can be written and read back: two or three dimensions;
/// positions that can be written; cells with as many vertices as their
/// shape; boundaries with names that can be written, no name twice; and no
/// more of anything than a machine word counts.
pub open spec fn mesh_writable(mesh: MeshModel) -> bool {
    &&& (mesh.dimensions == 2 || mesh.dimensions == 3)
    &&& mesh.points.len() <= usize::MAX
    &&& mesh.elements.len() <= usize::MAX
    &&& mesh.markers.len() <= usize::MAX
    &&& forall|i: int|
        0 <= i < mesh.points.len() ==> point_writable(#[trigger] mesh.points[i], mesh.dimensions)
    &&& forall|i: int|
        0 <= i < mesh.elements.len() ==> (#[trigger] mesh.elements[i]).vertex_ids.len()
            == mesh.elements[i].shape.spec_number_of_vertices()
    &&& forall|b: int|
        0 <= b < mesh.markers.len() ==> tag_writable((#[trigger] mesh.markers[b]).tag)
            && mesh.markers[b].edges.len() <= usize::MAX
    &&& forall|a: int, b: int|
        0 <= a < b < mesh.markers.len() ==> (#[trigger] mesh.markers[a]).tag != (
        #[trigger] mesh.markers[b]).tag
}

/// One more token that denotes a coordinate gives one more coordinate.
pub proof fn lemma_decimal_list_push(
    tokens: Seq<Seq<u8>>,
    token: Seq<u8>,
    values: Seq<i64>,
    value: i64,
)
    requires
        spec_decimal_list(tokens) == Ok::<Seq<i64>, NumberError>(values),
        spec_parse_decimal(token) == Ok::<i64, NumberError>(value),
    ensures
        spec_decimal_list(tokens.push(token)) == Ok::<Seq<i64>, NumberError>(values.push(value)),
{
    assert(tokens.push(token).drop_last() =~= tokens);
}

/// The decimal texts of the coordinates of a position: two in two
/// dimensions, three in three.
pub open spec fn point_tokens(point: Vector3, dim: u8) -> Seq<Seq<u8>> {
    if dim == 3 {
        seq![
            spec_format_decimal(point.x as int),
            spec_format_decimal(point.y as int),
            spec_format_decimal(point.z as int),
        ]
    } else {
        seq![spec_format_decimal(point.x as int), spec_format_decimal(point.y as int)]
    }
}

/// The line of a vertex is its coordinates joined by spaces.
pub proof fn lemma_point_line_joined(point: Vector3, dim: u8)
    ensures
        join_with(point_tokens(point, dim), 32u8) == point_line(point, dim),
{
    let x = spec_format_decimal(point.x as int);
    let y = spec_format_decimal(point.y as int);
    let z = spec_format_decimal(point.z as int);
    let tokens = point_tokens(point, dim);
    if dim == 3 {
        assert(tokens.skip(1) =~= seq![y, z]);
        assert(seq![y, z].skip(1) =~= seq![z]);
        assert(join_with(seq![z], 32u8) == z);
        assert(join_with(seq![y, z], 32u8) == y + seq![32u8] + z);
        assert(x + seq![32u8] + (y + seq![32u8] + z) =~= (x + seq![32u8] + y) + seq![32u8] + z);
    } else {
        assert(tokens.skip(1) =~= seq![y]);
        assert(join_with(seq![y], 32u8) == y);
    }
}

/// The decimal texts of the coordinates of a position have bytes, all of
/// them digits, `-` or `.`.
pub proof fn lemma_point_tokens_bytes(point: Vector3, dim: u8)
    ensures
        point_tokens(point, dim).len() >= 1,
        forall|i: int|
            0 <= i < point_tokens(point, dim).len() ==> (#[trigger] point_tokens(point, dim)[i]).len()
                > 0 && !holds(point_tokens(point, dim)[i], 32u8),
        forall|i: int|
            0 <= i < point_tokens(point, dim).len() ==> (#[trigger] point_tokens(point, dim)[i]).len()
                > 0 && forall|k: int|
                0 <= k < point_tokens(point, dim)[i].len() ==> is_number_byte(
                    #[trigger] point_tokens(point, dim)[i][k],
                ),
{
    lemma_format_decimal_bytes(point.x as int);
    lemma_format_decimal_bytes(point.y as int);
    lemma_format_decimal_bytes(point.z as int);
    let tokens = point_tokens(point, dim);
    assert forall|i: int| 0 <= i < tokens.len() implies (#[trigger] tokens[i]).len() > 0 && !holds(
        tokens[i],
        32u8,
    ) by {
        if holds(tokens[i], 32u8) {
            let k = choose|k: int| 0 <= k < tokens[i].len() && #[trigger] tokens[i][k] == 32u8;
            assert(is_number_byte(tokens[i][k]));
        }
    }
}

/// The decimal texts of the coordinates of a position denote the
/// coordinates.
pub proof fn lemma_point_tokens_read(point: Vector3, dim: u8)
    requires
        point.bounded(COORD_MAX as int),
    ensures
        dim == 3 ==> spec_decimal_list(point_tokens(point, dim)) == Ok::<Seq<i64>, NumberError>(
            seq![point.x, point.y, point.z],
        ),
        dim != 3 ==> spec_decimal_list(point_tokens(point, dim)) == Ok::<Seq<i64>, NumberError>(
            seq![point.x, point.y],
        ),
{
    let x = spec_format_decimal(point.x as int);
    let y = spec_format_decimal(point.y as int);
    let z = spec_format_decimal(point.z as int);
    lemma_parse_format_decimal(point.x as int);
    lemma_parse_format_decimal(point.y as int);
    lemma_parse_format_decimal(point.z as int);
    let none = Seq::<Seq<u8>>::empty();
    assert(spec_decimal_list(none) == Ok::<Seq<i64>, NumberError>(Seq::<i64>::empty()));
    lemma_decimal_list_push(none, x, Seq::<i64>::empty(), point.x);
    let one = none.push(x);
    lemma_decimal_list_push(one, y, Seq::<i64>::empty().push(point.x), point.y);
    let two = one.push(y);
    assert(Seq::<i64>::empty().push(point.x).push(point.y) =~= seq![point.x, point.y]);
    if dim == 3 {
        lemma_decimal_list_push(two, z, seq![point.x, point.y], point.z);
        assert(two.push(z) =~= point_tokens(point, dim));
        assert(seq![point.x, point.y].push(point.z) =~= seq![point.x, point.y, point.z]);
    } else {
        assert(two =~= point_tokens(point, dim));
    }
}

/// The line of a vertex is read back as the position of the vertex.
pub proof fn lemma_point_line_read(point: Vector3, dim: u8)
    requires
        dim == 2 || dim == 3,
        point_writable(point, dim),
    ensures
        spec_point(point_line(point, dim), dim) == Ok::<Vector3, Su2Error>(point),
        is_number_line(point_line(point, dim)),
{
    let tokens = point_tokens(point, dim);
    let line = point_line(point, dim);
    lemma_point_line_joined(point, dim);
    lemma_point_tokens_bytes(point, dim);
    lemma_point_tokens_read(point, dim);
    lemma_tokens_of_join(tokens);
    lemma_joined_digits_line(tokens);
    assert(spec_tokens(line) == tokens);
    assert(leading_tokens(line, dim as int) == tokens);
}

/// The line of a cell is read back as the cell.
pub proof fn lemma_element_line_read(element: ElementModel)
    requires
        element.vertex_ids.len() == element.shape.spec_number_of_vertices(),
    ensures
        spec_element(
            index_line(element.shape.spec_su2_element_type(), element.vertex_ids),
        ) == Ok::<ElementModel, Su2Error>(element),
        is_number_line(index_line(element.shape.spec_su2_element_type(), element.vertex_ids)),
{
    let code: usize = match element.shape {
        CellShape::Triangle => 5,
        CellShape::Quadrilateral => 9,
    };
    lemma_index_line_read(code, element.vertex_ids);
    let list = seq![code] + element.vertex_ids;
    assert(list.skip(1) =~= element.vertex_ids);
    assert(list[0] == code);
}

/// The line of a boundary edge is read back as the edge.
pub proof fn lemma_edge_line_read(edge: (usize, usize))
    ensures
        spec_boundary_edge(index_line(3, seq![edge.0, edge.1])) == Ok::<(usize, usize), Su2Error>(
            edge,
        ),
        is_number_line(index_line(3, seq![edge.0, edge.1])),
{
    lemma_index_line_read(3usize, seq![edge.0, edge.1]);
    let list = seq![3usize] + seq![edge.0, edge.1];
    assert(list.len() == 3);
    assert(list[0] == 3 && list[1] == edge.0 && list[2] == edge.1);
}

/// The lines of vertices are read back as the positions of the vertices.
pub proof fn lemma_points_read(
    lines: Seq<Seq<u8>>,
    from: int,
    points: Seq<Vector3>,
    dim: u8,
    n: nat,
)
    requires
        dim == 2 || dim == 3,
        0 <= from,
        n <= points.len(),
        from + points.len() <= lines.len(),
        forall|i: int|
            0 <= i < points.len() ==> point_writable(#[trigger] points[i], dim) && lines[from + i]
                == point_line(points[i], dim),
    ensures
        spec_points(lines, from, n, dim) == Ok::<Seq<Vector3>, Su2Error>(points.take(n as int)),
    decreases n,
{
    if n == 0 {
        assert(points.take(0) =~= Seq::<Vector3>::empty());
    } else {
        lemma_points_read(lines, from, points, dim, (n - 1) as nat);
        let i = n - 1;
        assert(point_writable(points[i], dim));
        lemma_point_line_read(points[i], dim);
        assert(points.take(i).push(points[i]) =~= points.take(n as int));
    }
}

/// The lines of cells are read back as the cells.
pub proof fn lemma_elements_read(
    lines: Seq<Seq<u8>>,
    from: int,
    elements: Seq<ElementModel>,
    n: nat,
)
    requires
        0 <= from,
        n <= elements.len(),
        from + elements.len() <= lines.len(),
        forall|i: int|
            0 <= i < elements.len() ==> (#[trigger] elements[i]).vertex_ids.len()
                == elements[i].shape.spec_number_of_vertices() && lines[from + i] == index_line(
                elements[i].shape.spec_su2_element_type(),
                elements[i].vertex_ids,
            ),
    ensures
        spec_elements(lines, from, n) == Ok::<Seq<ElementModel>, Su2Error>(
            elements.take(n as int),
        ),
    decreases n,
{
    if n == 0 {
        assert(elements.take(0) =~= Seq::<ElementModel>::empty());
    } else {
        lemma_elements_read(lines, from, elements, (n - 1) as nat);
        let i = n - 1;
        assert(elements[i].vertex_ids.len() == elements[i].shape.spec_number_of_vertices());
        lemma_element_line_read(elements[i]);
        assert(elements.take(i).push(elements[i]) =~= elements.take(n as int));
    }
}

/// The lines of boundary edges are read back as the edges.
pub proof fn lemma_edges_read(lines: Seq<Seq<u8>>, from: int, edges: Seq<(usize, usize)>, n: nat)
    requires
        0 <= from,
        n <= edges.len(),
        from + edges.len() <= lines.len(),
        forall|i: int|
            0 <= i < edges.len() ==> lines[from + i] == index_line(
                3,
                seq![(#[trigger] edges[i]).0, edges[i].1],
            ),
    ensures
        spec_edges(lines, from, n) == Ok::<Seq<(usize, usize)>, Su2Error>(edges.take(n as int)),
    decreases n,
{
    if n == 0 {
        assert(edges.take(0) =~= Seq::<(usize, usize)>::empty());
    } else {
        lemma_edges_read(lines, from, edges, (n - 1) as nat);
        let i = n - 1;
        assert(lines[from + i] == index_line(3, seq![edges[i].0, edges[i].1]));
        lemma_edge_line_read(edges[i]);
        assert(edges.take(i).push(edges[i]) =~= edges.take(n as int));
    }
}

/// Whether the lines of `part` stand in `lines` from the line `at` on.
pub open spec fn lines_at(lines: Seq<Seq<u8>>, at: int, part: Seq<Seq<u8>>) -> bool {
    &&& 0 <= at
    &&& at + part.len() <= lines.len()
    &&& forall|r: int| 0 <= r < part.len() ==> lines[at + r] == #[trigger] part[r]
}

/// The lines of a boundary are read back as the boundary.
pub proof fn lemma_marker_read(lines: Seq<Seq<u8>>, at: int, marker: MarkerModel)
    requires
        lines_at(lines, at, marker_lines(marker)),
        marker.edges.len() <= usize::MAX,
    ensures
        spec_marker(lines, at) == Ok::<(MarkerModel, int), Su2Error>(
            (marker, at + 2 + marker.edges.len()),
        ),
{
    let part = marker_lines(marker);
    let n = marker.edges.len();
    assert(part.len() == 2 + n);
    let tag_line = marker_tag_key() + seq![61u8] + marker.tag;
    let elems_key = marker_elems_key() + seq![61u8];
    let elems_line = keyed_line(elems_key, n);
    assert(part[0] == tag_line);
    assert(part[1] == elems_line);
    assert(lines[at + 0] == part[0]);
    assert(lines[at + 1] == part[1]);
    assert(tag_line.subrange(0, marker_tag_key().len() as int) =~= marker_tag_key());
    assert(!holds(marker_tag_key(), 61u8)) by {
        if holds(marker_tag_key(), 61u8) {
            let i = choose|i: int|
                0 <= i < marker_tag_key().len() && #[trigger] marker_tag_key()[i] == 61u8;
        }
    }
    lemma_after_first_of_concat(marker_tag_key(), marker.tag, 61u8);
    assert(elems_line.subrange(0, marker_elems_key().len() as int) =~= marker_elems_key());
    lemma_key_value_of_keyed_line(elems_key, n as usize);
    assert forall|i: int| 0 <= i < n implies lines[at + 2 + i] == index_line(
        3,
        seq![(#[trigger] marker.edges[i]).0, marker.edges[i].1],
    ) by {
        assert(lines[at + (2 + i)] == part[2 + i]);
    }
    lemma_edges_read(lines, at + 2, marker.edges, n);
    assert(marker.edges.take(n as int) =~= marker.edges);
}

/// A name that no boundary of a list has is not found in the list.
pub proof fn lemma_tag_not_listed(markers: Seq<MarkerModel>, tag: Seq<u8>)
    requires
        forall|i: int| 0 <= i < markers.len() ==> (#[trigger] markers[i]).tag != tag,
    ensures
        tag_position(markers, tag) is None,
    decreases markers.len(),
{
    if markers.len() > 0 {
        let shorter = markers.drop_last();
        assert forall|i: int| 0 <= i < shorter.len() implies (#[trigger] shorter[i]).tag != tag by {
            assert(shorter[i] == markers[i]);
        }
        lemma_tag_not_listed(shorter, tag);
        assert(markers.last() == markers[markers.len() - 1]);
    }
}

/// The lines of the first boundaries of a list are the first lines of the
/// list.
pub proof fn lemma_markers_lines_take(markers: Seq<MarkerModel>, k: int)
    requires
        0 <= k <= markers.len(),
    ensures
        markers_lines(markers.take(k)).len() <= markers_lines(markers).len(),
        forall|r: int|
            0 <= r < markers_lines(markers.take(k)).len() ==> markers_lines(markers)[r]
                == #[trigger] markers_lines(markers.take(k))[r],
    decreases markers.len() - k,
{
    if k == markers.len() {
        assert(markers.take(k) =~= markers);
    } else {
        let shorter = markers.drop_last();
        assert(shorter.take(k) =~= markers.take(k));
        lemma_markers_lines_take(shorter, k);
    }
}

/// The lines of a list of boundaries are read back as the boundaries.
pub proof fn lemma_markers_read(
    lines: Seq<Seq<u8>>,
    base: int,
    markers: Seq<MarkerModel>,
    k: nat,
)
    requires
        lines_at(lines, base, markers_lines(markers)),
        k <= markers.len(),
        forall|b: int| 0 <= b < markers.len() ==> (#[trigger] markers[b]).edges.len() <= usize::MAX,
        forall|a: int, b: int|
            0 <= a < b < markers.len() ==> (#[trigger] markers[a]).tag != (
            #[trigger] markers[b]).tag,
    ensures
        spec_markers(lines, base, k, Seq::empty()) == Ok::<(Seq<MarkerModel>, int), Su2Error>(
            (markers.take(k as int), base + markers_lines(markers.take(k as int)).len()),
        ),
    decreases k,
{
    if k == 0 {
        assert(markers.take(0) =~= Seq::<MarkerModel>::empty());
    } else {
        lemma_markers_read(lines, base, markers, (k - 1) as nat);
        let before = markers.take(k - 1);
        let marker = markers[k - 1];
        let now = markers.take(k as int);
        let at = base + markers_lines(before).len();
        assert(now.drop_last() =~= before);
        assert(now.last() == marker);
        assert(markers_lines(now) == markers_lines(before) + marker_lines(marker));
        lemma_markers_lines_take(markers, k as int);
        let all = markers_lines(markers);
        assert forall|r: int| 0 <= r < marker_lines(marker).len() implies lines[at + r]
            == #[trigger] marker_lines(marker)[r] by {
            let q = markers_lines(before).len() + r;
            assert(markers_lines(now)[q] == marker_lines(marker)[r]);
            assert(all[q] == markers_lines(now)[q]);
            assert(lines[base + q] == all[q]);
        }
        lemma_marker_read(lines, at, marker);
        assert forall|i: int| 0 <= i < before.len() implies (#[trigger] before[i]).tag
            != marker.tag by {
            assert(before[i] == markers[i]);
        }
        lemma_tag_not_listed(before, marker.tag);
        assert(before.push(marker) =~= now);
        assert(marker_lines(marker).len() == 2 + marker.edges.len());
    }
}

/// Which of the section keys a section line starts with: its own only.
pub proof fn lemma_section_keys(n: nat)
    ensures
        ndime_key().is_prefix_of(keyed_line(ndime_key(), n)),
        !ndime_key().is_prefix_of(keyed_line(npoin_key(), n)),
        npoin_key().is_prefix_of(keyed_line(npoin_key(), n)),
        !ndime_key().is_prefix_of(keyed_line(nelem_key(), n)),
        !npoin_key().is_prefix_of(keyed_line(nelem_key(), n)),
        nelem_key().is_prefix_of(keyed_line(nelem_key(), n)),
        !ndime_key().is_prefix_of(keyed_line(nmark_key(), n)),
        !npoin_key().is_prefix_of(keyed_line(nmark_key(), n)),
        !nelem_key().is_prefix_of(keyed_line(nmark_key(), n)),
        nmark_key().is_prefix_of(keyed_line(nmark_key(), n)),
{
    let d = nat_digits(n);
    assert((ndime_key() + d).subrange(0, 6) =~= ndime_key());
    assert((npoin_key() + d).subrange(0, 6) =~= npoin_key());
    assert((nelem_key() + d).subrange(0, 6) =~= nelem_key());
    assert((nmark_key() + d).subrange(0, 6) =~= nmark_key());
    assert((npoin_key() + d).subrange(0, 6)[1] == 80);
    assert((nelem_key() + d).subrange(0, 6)[1] == 69);
    assert((nmark_key() + d).subrange(0, 6)[1] == 77);
    assert(ndime_key()[1] == 68);
    assert(npoin_key()[1] == 80);
    assert(nelem_key()[1] == 69);
}

/// The line of the number of dimensions is read as that number.
pub proof fn lemma_read_dimensions(lines: Seq<Seq<u8>>, at: int, state: ReadState, dim: u8)
    requires
        0 <= at < lines.len(),
        lines[at] == keyed_line(ndime_key(), dim as nat),
        dim == 2 || dim == 3,
    ensures
        spec_section(lines, at, state) == Ok::<(ReadState, int), Su2Error>(
            (ReadState { dimensions: Some(dim), ..state }, at + 1),
        ),
{
    reveal(spec_section);
    lemma_section_keys(dim as nat);
    lemma_key_value_of_keyed_line(ndime_key(), dim as usize);
}

/// The section of the vertices is read as the positions of the vertices.
pub proof fn lemma_read_point_section(
    lines: Seq<Seq<u8>>,
    at: int,
    state: ReadState,
    points: Seq<Vector3>,
    dim: u8,
)
    requires
        0 <= at < lines.len(),
        state.dimensions == Some(dim),
        dim == 2 || dim == 3,
        points.len() <= usize::MAX,
        lines[at] == keyed_line(npoin_key(), points.len()),
        lines_at(lines, at + 1, point_lines(points, dim)),
        forall|i: int| 0 <= i < points.len() ==> point_writable(#[trigger] points[i], dim),
    ensures
        spec_section(lines, at, state) == Ok::<(ReadState, int), Su2Error>(
            (ReadState { points: state.points + points, ..state }, at + 1 + points.len()),
        ),
{
    reveal(spec_section);
    lemma_section_keys(points.len());
    lemma_key_value_of_keyed_line(npoin_key(), points.len() as usize);
    assert forall|i: int| 0 <= i < points.len() implies point_writable(#[trigger] points[i], dim)
        && lines[at + 1 + i] == point_line(points[i], dim) by {
        assert(lines[at + 1 + i] == point_lines(points, dim)[i]);
    }
    lemma_points_read(lines, at + 1, points, dim, points.len());
    assert(points.take(points.len() as int) =~= points);
}

/// The section of the cells is read as the cells.
pub proof fn lemma_read_element_section(
    lines: Seq<Seq<u8>>,
    at: int,
    state: ReadState,
    elements: Seq<ElementModel>,
)
    requires
        0 <= at < lines.len(),
        elements.len() <= usize::MAX,
        lines[at] == keyed_line(nelem_key(), elements.len()),
        lines_at(lines, at + 1, element_lines(elements)),
        forall|i: int|
            0 <= i < elements.len() ==> (#[trigger] elements[i]).vertex_ids.len()
                == elements[i].shape.spec_number_of_vertices(),
    ensures
        spec_section(lines, at, state) == Ok::<(ReadState, int), Su2Error>(
            (
                ReadState { elements: state.elements + elements, has_elements: true, ..state },
                at + 1 + elements.len(),
            ),
        ),
{
    reveal(spec_section);
    lemma_section_keys(elements.len());
    lemma_key_value_of_keyed_line(nelem_key(), elements.len() as usize);
    assert forall|i: int| 0 <= i < elements.len() implies (#[trigger] elements[i]).vertex_ids.len()
        == elements[i].shape.spec_number_of_vertices() && lines[at + 1 + i] == index_line(
        elements[i].shape.spec_su2_element_type(),
        elements[i].vertex_ids,
    ) by {
        assert(lines[at + 1 + i] == element_lines(elements)[i]);
    }
    lemma_elements_read(lines, at + 1, elements, elements.len());
    assert(elements.take(elements.len() as int) =~= elements);
}

/// The section of the boundaries is read as the boundaries.
pub proof fn lemma_read_marker_section(
    lines: Seq<Seq<u8>>,
    at: int,
    state: ReadState,
    markers: Seq<MarkerModel>,
)
    requires
        0 <= at < lines.len(),
        state.markers.len() == 0,
        markers.len() <= usize::MAX,
        lines[at] == keyed_line(nmark_key(), markers.len()),
        lines_at(lines, at + 1, markers_lines(markers)),
        forall|b: int| 0 <= b < markers.len() ==> (#[trigger] markers[b]).edges.len() <= usize::MAX,
        forall|a: int, b: int|
            0 <= a < b < markers.len() ==> (#[trigger] markers[a]).tag != (
            #[trigger] markers[b]).tag,
    ensures
        spec_section(lines, at, state) == Ok::<(ReadState, int), Su2Error>(
            (ReadState { markers, ..state }, at + 1 + markers_lines(markers).len()),
        ),
{
    reveal(spec_section);
    lemma_section_keys(markers.len());
    lemma_key_value_of_keyed_line(nmark_key(), markers.len() as usize);
    lemma_markers_read(lines, at + 1, markers, markers.len());
    assert(markers.take(markers.len() as int) =~= markers);
    assert(state.markers =~= Seq::<MarkerModel>::empty());
}

/// Whether a line holds no line end and has no white space around it.
pub open spec fn line_clean(line: Seq<u8>) -> bool {
    &&& !holds(line, 10u8)
    &&& spec_trim(line) == line
}

/// A key without white space and line ends, followed by digits, is a clean
/// line.
pub proof fn lemma_keyed_line_clean(key: Seq<u8>, n: nat)
    requires
        key.len() > 0,
        forall|i: int| 0 <= i < key.len() ==> #[trigger] key[i] > 32,
    ensures
        line_clean(keyed_line(key, n)),
{
    let d = nat_digits(n);
    let line = key + d;
    lemma_nat_digits(n);
    assert forall|i: int| 0 <= i < line.len() implies #[trigger] line[i] > 32 by {
        if i < key.len() {
            assert(line[i] == key[i]);
        } else {
            assert(line[i] == d[i - key.len()]);
            assert(is_digit(d[i - key.len()]));
        }
    }
    if holds(line, 10u8) {
        let i = choose|i: int| 0 <= i < line.len() && #[trigger] line[i] == 10u8;
        assert(line[i] > 32);
    }
    assert(line[0] > 32);
    assert(line[line.len() - 1] > 32);
    lemma_trim_nothing(line);
}

/// The lines of a boundary with a name that can be written are clean.
pub proof fn lemma_marker_lines_clean(marker: MarkerModel)
    requires
        tag_writable(marker.tag),
    ensures
        forall|r: int|
            0 <= r < marker_lines(marker).len() ==> line_clean(#[trigger] marker_lines(marker)[r]),
{
    let part = marker_lines(marker);
    let head = marker_tag_key() + seq![61u8];
    let tag_line = marker_tag_key() + seq![61u8] + marker.tag;
    assert forall|i: int| 0 <= i < head.len() implies #[trigger] head[i] > 32 by {
        if i < 10 {
            assert(head[i] == marker_tag_key()[i]);
        }
    }
    assert(line_clean(tag_line)) by {
        if holds(tag_line, 10u8) {
            let i = choose|i: int| 0 <= i < tag_line.len() && #[trigger] tag_line[i] == 10u8;
            if i < head.len() {
                assert(tag_line[i] == head[i]);
            } else {
                assert(tag_line[i] == marker.tag[i - head.len()]);
                assert(holds(marker.tag, 10u8));
            }
        }
        assert(tag_line[0] == head[0]);
        if marker.tag.len() > 0 {
            assert(tag_line[tag_line.len() - 1] == marker.tag[marker.tag.len() - 1]);
        } else {
            assert(tag_line[tag_line.len() - 1] == head[head.len() - 1]);
        }
        lemma_trim_nothing(tag_line);
    }
    let elems_key = marker_elems_key() + seq![61u8];
    assert forall|i: int| 0 <= i < elems_key.len() implies #[trigger] elems_key[i] > 32 by {
        if i < 12 {
            assert(elems_key[i] == marker_elems_key()[i]);
        }
    }
    lemma_keyed_line_clean(elems_key, marker.edges.len());
    assert forall|r: int| 0 <= r < part.len() implies line_clean(#[trigger] part[r]) by {
        if r == 0 {
            assert(part[0] == tag_line);
        } else if r == 1 {
            assert(part[1] == keyed_line(elems_key, marker.edges.len()));
        } else {
            let edge = marker.edges[r - 2];
            assert(part[r] == index_line(3, seq![edge.0, edge.1]));
            lemma_edge_line_read(edge);
            lemma_number_line(part[r]);
        }
    }
}

/// The lines of boundaries with names that can be written are clean.
pub proof fn lemma_markers_lines_clean(markers: Seq<MarkerModel>)
    requires
        forall|b: int| 0 <= b < markers.len() ==> tag_writable((#[trigger] markers[b]).tag),
    ensures
        forall|r: int|
            0 <= r < markers_lines(markers).len() ==> line_clean(
                #[trigger] markers_lines(markers)[r],
            ),
    decreases markers.len(),
{
    if markers.len() > 0 {
        let shorter = markers.drop_last();
        assert forall|b: int| 0 <= b < shorter.len() implies tag_writable(
            (#[trigger] shorter[b]).tag,
        ) by {
            assert(shorter[b] == markers[b]);
        }
        lemma_markers_lines_clean(shorter);
        assert(markers.last() == markers[markers.len() - 1]);
        lemma_marker_lines_clean(markers.last());
        let all = markers_lines(markers);
        let before = markers_lines(shorter);
        let part = marker_lines(markers.last());
        assert forall|r: int| 0 <= r < all.len() implies line_clean(#[trigger] all[r]) by {
            if r < before.len() {
                assert(all[r] == before[r]);
            } else {
                assert(all[r] == part[r - before.len()]);
            }
        }
    }
}

/// Where each line of a mesh stands among its lines.
pub proof fn lemma_su2_lines_places(mesh: MeshModel)
    ensures
        ({
            let lines = su2_lines(mesh);
            let np = mesh.points.len() as int;
            let ne = mesh.elements.len() as int;
            &&& lines.len() == 4 + np + ne + markers_lines(mesh.markers).len()
            &&& lines[0] == keyed_line(ndime_key(), mesh.dimensions as nat)
            &&& lines[1] == keyed_line(npoin_key(), mesh.points.len())
            &&& lines_at(lines, 2, point_lines(mesh.points, mesh.dimensions))
            &&& lines[2 + np] == keyed_line(nelem_key(), mesh.elements.len())
            &&& lines_at(lines, 3 + np, element_lines(mesh.elements))
            &&& lines[3 + np + ne] == keyed_line(nmark_key(), mesh.markers.len())
            &&& lines_at(lines, 4 + np + ne, markers_lines(mesh.markers))
        }),
{
    let lines = su2_lines(mesh);
    let np = mesh.points.len() as int;
    let ne = mesh.elements.len() as int;
    let a = seq![keyed_line(ndime_key(), mesh.dimensions as nat)];
    let b = seq![keyed_line(npoin_key(), mesh.points.len())];
    let p = point_lines(mesh.points, mesh.dimensions);
    let c = seq![keyed_line(nelem_key(), mesh.elements.len())];
    let e = element_lines(mesh.elements);
    let d = seq![keyed_line(nmark_key(), mesh.markers.len())];
    let m = markers_lines(mesh.markers);
    let s1 = a + b;
    let s2 = s1 + p;
    let s3 = s2 + c;
    let s4 = s3 + e;
    let s5 = s4 + d;
    assert(lines == s5 + m);
    assert(s1.len() == 2);
    assert(s2.len() == 2 + np);
    assert(s3.len() == 3 + np);
    assert(s4.len() == 3 + np + ne);
    assert(s5.len() == 4 + np + ne);
    assert(lines[0] == a[0]);
    assert(lines[1] == b[0]);
    assert forall|r: int| 0 <= r < p.len() implies lines[2 + r] == #[trigger] p[r] by {
        assert(s2[2 + r] == p[r]);
    }
    assert(lines[2 + np] == c[0]) by {
        assert(s3[2 + np] == c[0]);
    }
    assert forall|r: int| 0 <= r < e.len() implies lines[3 + np + r] == #[trigger] e[r] by {
        assert(s4[3 + np + r] == e[r]);
    }
    assert(lines[3 + np + ne] == d[0]) by {
        assert(s5[3 + np + ne] == d[0]);
    }
    assert forall|r: int| 0 <= r < m.len() implies lines[4 + np + ne + r] == #[trigger] m[r] by {}
}

/// The lines of a mesh that can be written are clean.
pub proof fn lemma_su2_lines_clean(mesh: MeshModel)
    requires
        mesh_writable(mesh),
    ensures
        forall|i: int| 0 <= i < su2_lines(mesh).len() ==> line_clean(#[trigger] su2_lines(mesh)[i]),
{
    let lines = su2_lines(mesh);
    let np = mesh.points.len() as int;
    let ne = mesh.elements.len() as int;
    lemma_su2_lines_places(mesh);
    lemma_markers_lines_clean(mesh.markers);
    assert forall|i: int| 0 <= i < 6 implies #[trigger] ndime_key()[i] > 32 && npoin_key()[i] > 32
        && nelem_key()[i] > 32 && nmark_key()[i] > 32 by {}
    lemma_keyed_line_clean(ndime_key(), mesh.dimensions as nat);
    lemma_keyed_line_clean(npoin_key(), mesh.points.len());
    lemma_keyed_line_clean(nelem_key(), mesh.elements.len());
    lemma_keyed_line_clean(nmark_key(), mesh.markers.len());
    assert forall|i: int| 0 <= i < lines.len() implies line_clean(#[trigger] lines[i]) by {
        if i < 2 {
        } else if i < 2 + np {
            let r = i - 2;
            assert(lines[2 + r] == point_lines(mesh.points, mesh.dimensions)[r]);
            assert(point_writable(mesh.points[r], mesh.dimensions));
            lemma_point_line_read(mesh.points[r], mesh.dimensions);
            lemma_number_line(lines[i]);
        } else if i == 2 + np {
        } else if i < 3 + np + ne {
            let r = i - 3 - np;
            assert(lines[3 + np + r] == element_lines(mesh.elements)[r]);
            assert(mesh.elements[r].vertex_ids.len()
                == mesh.elements[r].shape.spec_number_of_vertices());
            lemma_element_line_read(mesh.elements[r]);
            lemma_number_line(lines[i]);
        } else if i == 3 + np + ne {
        } else {
            let r = i - 4 - np - ne;
            assert(lines[4 + np + ne + r] == markers_lines(mesh.markers)[r]);
        }
    }
}

/// A mesh that was written in the SU2 format is read back as it was.
pub proof fn lemma_read_written(mesh: MeshModel)
    requires
        mesh_writable(mesh),
    ensures
        spec_parse_su2(spec_write_su2(mesh)) == Ok::<MeshModel, Su2Error>(mesh),
{
    let lines = su2_lines(mesh);
    let text = spec_write_su2(mesh);
    let np = mesh.points.len() as int;
    let ne = mesh.elements.len() as int;
    let nm = markers_lines(mesh.markers).len() as int;
    lemma_su2_lines_places(mesh);
    lemma_su2_lines_clean(mesh);
    lemma_lines_of_join(lines);
    assert(trimmed_lines(text) =~= lines);
    let s0 = initial_state();
    let s1 = ReadState { dimensions: Some(mesh.dimensions), ..s0 };
    let s2 = ReadState { points: s1.points + mesh.points, ..s1 };
    let s3 = ReadState { elements: s2.elements + mesh.elements, has_elements: true, ..s2 };
    let s4 = ReadState { markers: mesh.markers, ..s3 };
    lemma_read_dimensions(lines, 0, s0, mesh.dimensions);
    lemma_read_point_section(lines, 1, s1, mesh.points, mesh.dimensions);
    lemma_read_element_section(lines, 2 + np, s2, mesh.elements);
    lemma_read_marker_section(lines, 3 + np + ne, s3, mesh.markers);
    assert(spec_sections(lines, 4 + np + ne + nm, s4) == Ok::<ReadState, Su2Error>(s4));
    assert(spec_sections(lines, 3 + np + ne, s3) == spec_sections(lines, 4 + np + ne + nm, s4));
    assert(spec_sections(lines, 2 + np, s2) == spec_sections(lines, 3 + np + ne, s3));
    assert(spec_sections(lines, 1, s1) == spec_sections(lines, 2 + np, s2));
    assert(spec_sections(lines, 0, s0) == spec_sections(lines, 1, s1));
    assert(s4.points =~= mesh.points);
    assert(s4.elements =~= mesh.elements);
}

/// A block that was built, written as the mesh that declares it and read
/// back, is the same block: the positions of its vertices, its interfaces
/// under their numbers, its cells with their faces, and its boundaries.
pub proof fn lemma_block_read_back(mesh: MeshModel)
    requires
        spec_build(mesh) is Ok,
        spec_build(mesh).unwrap().edges.len() <= usize::MAX,
        mesh_writable(model_mesh(spec_build(mesh).unwrap())),
    ensures
        spec_read_su2(spec_write_su2(model_mesh(spec_build(mesh).unwrap()))) == spec_build(mesh),
{
    let block = spec_build(mesh).unwrap();
    lemma_read_written(model_mesh(block));
    lemma_build_again(mesh);
}

/// Any block that can be declared as a mesh, written and built comes back
/// from its text as from its mesh: with the same positions, cells of the
/// same shapes on the same vertices, and boundaries of the same names on
/// interfaces between the same vertices.
pub proof fn lemma_any_block_read_back(block: BlockModel)
    requires
        block_can_be_rebuilt(block),
        mesh_writable(model_mesh(block)),
    ensures
        spec_read_su2(spec_write_su2(model_mesh(block))) is Ok,
        spec_read_su2(spec_write_su2(model_mesh(block))) == spec_build(model_mesh(block)),
{
    lemma_read_written(model_mesh(block));
    lemma_any_block_built_again(block);
}

/// The edges of the interfaces with the given numbers, for interfaces of
/// two vertices each.
pub proof fn lemma_interface_edges_of(interfaces: Seq<GridInterface>, ids: Seq<usize>, k: int)
    requires
        0 <= k <= ids.len(),
        ids_in_range(ids, interfaces.len() as int),
        forall|i: int| 0 <= i < interfaces.len() ==> (#[trigger] interfaces[i]).well_formed(),
    ensures
        interface_edges(interfaces, ids.take(k)) == Some(
            Seq::new(k as nat, |j: int| edges_of(interfaces)[ids[j] as int]),
        ),
    decreases k,
{
    if k == 0 {
        assert(Seq::new(0nat, |j: int| edges_of(interfaces)[ids[j] as int]) =~= Seq::<
            (usize, usize),
        >::empty());
    } else {
        lemma_interface_edges_of(interfaces, ids, k - 1);
        assert(ids.take(k).drop_last() =~= ids.take(k - 1));
        assert(ids.take(k).last() == ids[k - 1]);
        assert(ids[k - 1] < interfaces.len());
        assert(Seq::new((k - 1) as nat, |j: int| edges_of(interfaces)[ids[j] as int]).push(
            edges_of(interfaces)[ids[k - 1] as int],
        ) =~= Seq::new(k as nat, |j: int| edges_of(interfaces)[ids[j] as int]));
    }
}

/// The boundaries of a block as a mesh declares them are those of the block
/// in contracts.
pub proof fn lemma_block_markers_of(
    interfaces: Seq<GridInterface>,
    boundaries: Seq<Boundary>,
    k: int,
)
    requires
        0 <= k <= boundaries.len(),
        forall|b: int|
            0 <= b < boundaries.len() ==> ids_in_range(
                (#[trigger] boundaries[b]).interfaces@,
                interfaces.len() as int,
            ),
        forall|i: int| 0 <= i < interfaces.len() ==> (#[trigger] interfaces[i]).well_formed(),
    ensures
        block_markers(interfaces, boundaries.take(k)) == Some(
            Seq::new(
                k as nat,
                |b: int|
                    MarkerModel {
                        tag: boundaries[b].tag@,
                        edges: Seq::new(
                            boundaries[b].interfaces@.len(),
                            |j: int| edges_of(interfaces)[boundaries[b].interfaces@[j] as int],
                        ),
                    },
            ),
        ),
    decreases k,
{
    let expected = |n: int|
        Seq::new(
            n as nat,
            |b: int|
                MarkerModel {
                    tag: boundaries[b].tag@,
                    edges: Seq::new(
                        boundaries[b].interfaces@.len(),
                        |j: int| edges_of(interfaces)[boundaries[b].interfaces@[j] as int],
                    ),
                },
        );
    if k == 0 {
        assert(expected(0) =~= Seq::<MarkerModel>::empty());
    } else {
        lemma_block_markers_of(interfaces, boundaries, k - 1);
        assert(boundaries.take(k).drop_last() =~= boundaries.take(k - 1));
        assert(boundaries.take(k).last() == boundaries[k - 1]);
        let ids = boundaries[k - 1].interfaces@;
        lemma_interface_edges_of(interfaces, ids, ids.len() as int);
        assert(ids.take(ids.len() as int) =~= ids);
        assert(expected(k - 1).push(expected(k)[k - 1]) =~= expected(k));
    }
}

/// The mesh that declares a block is the mesh of the block in contracts.
pub proof fn lemma_mesh_of_block(block: &GridBlock)
    requires
        block.well_formed(),
    ensures
        spec_mesh_of(block) == Some(model_mesh(block.model())),
{
    let interfaces = block.spec_interfaces();
    let boundaries = block.spec_boundaries();
    let model = block.model();
    lemma_block_markers_of(interfaces, boundaries, boundaries.len() as int);
    assert(boundaries.take(boundaries.len() as int) =~= boundaries);
    let expected = model_mesh(model);
    let found = spec_mesh_of(block).unwrap();
    assert(found.points =~= expected.points);
    assert(found.elements =~= expected.elements);
    assert(found.markers =~= expected.markers) by {
        assert forall|b: int| 0 <= b < boundaries.len() implies found.markers[b]
            == expected.markers[b] by {
            assert(found.markers[b].edges =~= expected.markers[b].edges);
        }
    }
}

} // verus!
