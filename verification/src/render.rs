//! Drawings of paths as vector graphics: one diagram for each path, set out in
//! a square grid, each with the corners of the polygon, the path as a closed
//! line through them, and the jumps of the path as its label.

use vstd::prelude::*;
use vstd::string::{StrSliceExecFns, StringExecFns};
use crate::paths::{shapes, PolyPath, Shape};
use crate::walk::step_from;

verus! {

/// The radius of a polygon in a diagram; a diagram is four times as wide.
pub const SCALE: i32 = 50;

/// The digits of numbers and labels, in rising order of their value.
pub open spec fn digit_chars() -> Seq<char> {
    "0123456789ABCDEFGHIJKLMNOPQRSTUVWXYZ"@
}

/// The decimal digits of a natural number, the leading one first.
pub open spec fn digits(n: nat) -> Seq<char>
    decreases n,
{
    if n < 10 {
        seq![digit_chars()[n as int]]
    } else {
        digits(n / 10) + seq![digit_chars()[(n % 10) as int]]
    }
}

/// A whole number in decimal, with a minus sign if it is negative.
pub open spec fn decimal(x: int) -> Seq<char> {
    if x < 0 {
        seq!['-'] + digits((-x) as nat)
    } else {
        digits(x as nat)
    }
}

/// The text of the digit with value `d`.
pub fn digit_text(d: usize) -> (text: &'static str)
    requires
        d < 36,
    ensures
        text@ == seq![digit_chars()[d as int]],
{
    let all = "0123456789ABCDEFGHIJKLMNOPQRSTUVWXYZ";
    proof {
        reveal_strlit("0123456789ABCDEFGHIJKLMNOPQRSTUVWXYZ");
    }
    let text = all.substring_ascii(d, d + 1);
    assert(text@ =~= seq![digit_chars()[d as int]]);
    text
}

/// Writes the decimal digits of `n` at the end of `text`.
pub fn append_digits(text: &mut String, n: u64)
    ensures
        final(text)@ == old(text)@ + digits(n as nat),
    decreases n,
{
    if n >= 10 {
        append_digits(text, n / 10);
    }
    text.append(digit_text((n % 10) as usize));
    assert(final(text)@ =~= old(text)@ + digits(n as nat));
}

/// Writes `x` in decimal at the end of `text`.
pub fn append_decimal(text: &mut String, x: i64)
    ensures
        final(text)@ == old(text)@ + decimal(x as int),
{
    if x < 0 {
        text.append("-");
        proof {
            reveal_strlit("-");
            assert("-"@ =~= seq!['-']);
        }
        let size: u64 = (-(x + 1)) as u64 + 1;
        append_digits(text, size);
        assert(final(text)@ =~= old(text)@ + decimal(x as int));
    } else {
        append_digits(text, x as u64);
    }
}

/// `side` is the least number of diagrams in a row with which a square grid
/// holds `count` diagrams: the square root of `count`, rounded up.
pub open spec fn is_grid_side(count: int, side: int) -> bool {
    &&& 0 <= side
    &&& count <= side * side
    &&& side > 0 ==> (side - 1) * (side - 1) < count
}

/// The number of diagrams in a row of the square grid for `count` diagrams.
pub open spec fn side_of(count: int) -> int {
    choose|side: int| is_grid_side(count, side)
}

/// Only one number is the square root of `count`, rounded up.
pub proof fn lemma_grid_side_unique(count: int, a: int, b: int)
    requires
        is_grid_side(count, a),
        is_grid_side(count, b),
    ensures
        a == b,
{
    if a < b {
        assert(a * a <= (b - 1) * (b - 1)) by (nonlinear_arith)
            requires
                0 <= a <= b - 1,
        ;
    } else if b < a {
        assert(b * b <= (a - 1) * (a - 1)) by (nonlinear_arith)
            requires
                0 <= b <= a - 1,
        ;
    }
}

/// The number of diagrams in each row of the square grid for `count` diagrams.
pub fn grid_side(count: i32) -> (side: i32)
    requires
        count >= 0,
    ensures
        is_grid_side(count as int, side as int),
        side == side_of(count as int),
        count > 0 ==> side > 0,
{
    let mut side: i32 = 0;
    let mut area: i64 = 0;
    while area < count as i64
        invariant
            0 <= side <= 46341,
            area == side * side,
            side > 0 ==> (side - 1) * (side - 1) < count,
        decreases 46341 - side,
    {
        assert(side < 46341 && (side + 1) * (side + 1) <= 2147581281) by (nonlinear_arith)
            requires
                side * side < count,
                count <= i32::MAX,
                0 <= side <= 46341,
        ;
        side += 1;
        area = (side as i64) * (side as i64);
    }
    proof {
        lemma_grid_side_unique(count as int, side as int, side_of(count as int));
    }
    side
}

/// Every jump has a digit of its own: it is at least 0 and less than 36.
pub open spec fn has_label(jumps: Seq<int>) -> bool {
    forall|i: int| 0 <= i < jumps.len() ==> 0 <= #[trigger] jumps[i] < 36
}

/// The label of a path: its jumps, each written as one digit to the base 36.
pub open spec fn label(jumps: Seq<int>) -> Seq<char> {
    Seq::new(jumps.len(), |i: int| digit_chars()[jumps[i]])
}

/// The text element that labels the diagram in column `col` and row `row`.
pub open spec fn label_element(jumps: Seq<int>, col: int, row: int) -> Seq<char> {
    "<text x=\""@ + decimal(4 * SCALE * col + 10) + "\" y=\""@ + decimal(4 * SCALE * row + 15)
        + "\">"@ + label(jumps) + "</text>\r\n"@
}

/// The text elements for the first `upto` paths of `list`, set out in rows of
/// `square` diagrams.
pub open spec fn label_elements(list: Seq<Shape>, square: int, upto: int) -> Seq<char>
    decreases upto,
{
    if upto <= 0 {
        Seq::empty()
    } else {
        label_elements(list, square, upto - 1) + label_element(
            list[upto - 1].jumps,
            (upto - 1) % square,
            (upto - 1) / square,
        )
    }
}

/// Writes the label of a path at the end of `text`.
pub fn append_label(text: &mut String, path: &PolyPath)
    requires
        has_label(path@.jumps),
    ensures
        final(text)@ == old(text)@ + label(path@.jumps),
{
    let ghost jumps = path@.jumps;
    let mut i: usize = 0;
    while i < path.path.len()
        invariant
            i <= path.path.len(),
            jumps == path@.jumps,
            has_label(jumps),
            text@ == old(text)@ + label(jumps).subrange(0, i as int),
        decreases path.path.len() - i,
    {
        let jump: i32 = path.path[i];
        assert(jumps[i as int] == jump);
        text.append(digit_text(jump as usize));
        i += 1;
        assert(text@ =~= old(text)@ + label(jumps).subrange(0, i as int));
    }
    assert(label(jumps).subrange(0, i as int) =~= label(jumps));
}

/// Writes the text element that labels the diagram in column `col` and row
/// `row` at the end of `text`.
pub fn append_label_element(text: &mut String, path: &PolyPath, col: i32, row: i32)
    requires
        has_label(path@.jumps),
        0 <= col,
        0 <= row,
    ensures
        final(text)@ == old(text)@ + label_element(path@.jumps, col as int, row as int),
{
    let cell: i64 = 4 * (SCALE as i64);
    assert(cell == 200);
    text.append("<text x=\"");
    append_decimal(text, cell * (col as i64) + 10);
    text.append("\" y=\"");
    append_decimal(text, cell * (row as i64) + 15);
    text.append("\">");
    append_label(text, path);
    text.append("</text>\r\n");
    assert(final(text)@ =~= old(text)@ + label_element(path@.jumps, col as int, row as int));
}

/// The text elements that label the diagrams of `paths`, set out in rows of
/// `square` diagrams.
pub fn svg_labels_from_paths(paths: &[PolyPath], square: i32) -> (result: String)
    requires
        square > 0,
        paths.len() <= i32::MAX,
        forall|i: int| 0 <= i < paths.len() ==> has_label(#[trigger] paths[i]@.jumps),
    ensures
        result@ == label_elements(shapes(paths@), square as int, paths.len() as int),
{
    let mut result = String::from_str("");
    proof {
        reveal_strlit("");
        assert(result@ =~= Seq::<char>::empty());
    }
    let ghost list = shapes(paths@);
    let mut i: usize = 0;
    while i < paths.len()
        invariant
            i <= paths.len() <= i32::MAX,
            square > 0,
            list == shapes(paths@),
            forall|j: int| 0 <= j < paths.len() ==> has_label(#[trigger] paths[j]@.jumps),
            result@ == label_elements(list, square as int, i as int),
        decreases paths.len() - i,
    {
        let col: i32 = i as i32 % square;
        let row: i32 = i as i32 / square;
        assert(list[i as int] == paths[i as int]@);
        append_label_element(&mut result, &paths[i], col, row);
        i += 1;
    }
    result
}

/// The corner reached from corner 0 after the first `k` jumps of `jumps` on a
/// polygon with `n` corners.
pub open spec fn corner_at(jumps: Seq<int>, k: int, n: int) -> int
    decreases k,
{
    if k <= 0 {
        0
    } else {
        (corner_at(jumps, k - 1, n) + jumps[k - 1]) % n
    }
}

/// Where a corner is drawn in the diagram in column `col` and row `row`, given
/// its place relative to the centre of the polygon.
pub open spec fn point_of(vert: (i32, i32), col: int, row: int) -> (int, int) {
    (vert.0 + 4 * SCALE * col + 2 * SCALE, vert.1 + 4 * SCALE * row + 2 * SCALE)
}

/// The corners of the first `upto` jumps of a path as points of a line: the
/// two coordinates of each with a comma between them, and `L` between points.
pub open spec fn outline(
    jumps: Seq<int>,
    verts: Seq<(i32, i32)>,
    col: int,
    row: int,
    upto: int,
) -> Seq<char>
    decreases upto,
{
    if upto <= 0 {
        Seq::empty()
    } else {
        let point = point_of(verts[corner_at(jumps, upto - 1, verts.len() as int)], col, row);
        let lead = if upto == 1 { Seq::<char>::empty() } else { "L"@ };
        outline(jumps, verts, col, row, upto - 1) + lead + decimal(point.0) + ","@ + decimal(
            point.1,
        )
    }
}

/// The path element that draws a path in the diagram in column `col` and row
/// `row`.
pub open spec fn shape_element(jumps: Seq<int>, verts: Seq<(i32, i32)>, col: int, row: int) -> Seq<
    char,
> {
    "<path d=\"M"@ + outline(jumps, verts, col, row, jumps.len() as int) + "Z\"/>\r\n"@
}

/// The path elements for the first `upto` paths of `list`, set out in rows of
/// `square` diagrams.
pub open spec fn shape_elements(
    list: Seq<Shape>,
    verts: Seq<(i32, i32)>,
    square: int,
    upto: int,
) -> Seq<char>
    decreases upto,
{
    if upto <= 0 {
        Seq::empty()
    } else {
        shape_elements(list, verts, square, upto - 1) + shape_element(
            list[upto - 1].jumps,
            verts,
            (upto - 1) % square,
            (upto - 1) / square,
        )
    }
}

/// The opening tag of the group of path elements: how the lines are drawn.
pub open spec fn group_opening() -> Seq<char> {
    "<g stroke=\"black\" stroke-linejoin=\"bevel\" stroke-width=\"3\" fill=\"none\" marker-start=\"url(#top-vert)\" marker-mid=\"url(#vert)\">\r\n"@
}

/// The group of the path elements of all paths of `list`.
pub open spec fn shape_group(list: Seq<Shape>, verts: Seq<(i32, i32)>, square: int) -> Seq<char> {
    group_opening() + shape_elements(list, verts, square, list.len() as int) + "</g>\r\n"@
}

/// No jump of the path leads backwards, and the path has at least one jump.
pub open spec fn can_be_drawn(jumps: Seq<int>) -> bool {
    &&& jumps.len() > 0
    &&& forall|i: int| 0 <= i < jumps.len() ==> 0 <= #[trigger] jumps[i]
}

/// Where a corner is drawn in the diagram in column `x` and row `y`, given
/// its place relative to the centre of the polygon.
pub fn point_from_vertex(vert: (i32, i32), x: i32, y: i32) -> (point: (i64, i64))
    ensures
        (point.0 as int, point.1 as int) == point_of(vert, x as int, y as int),
{
    let cell: i64 = 4 * (SCALE as i64);
    let middle: i64 = 2 * (SCALE as i64);
    assert(cell == 200 && middle == 100);
    (vert.0 as i64 + cell * (x as i64) + middle, vert.1 as i64 + cell * (y as i64) + middle)
}

/// Writes the path element that draws `path` in the diagram in column `col`
/// and row `row` at the end of `text`.
pub fn append_shape_element(
    text: &mut String,
    path: &PolyPath,
    verts: &Vec<(i32, i32)>,
    col: i32,
    row: i32,
)
    requires
        can_be_drawn(path@.jumps),
        verts.len() > 0,
    ensures
        final(text)@ == old(text)@ + shape_element(path@.jumps, verts@, col as int, row as int),
{
    let ghost jumps = path@.jumps;
    let ghost start = text@ + "<path d=\"M"@;
    let n: usize = verts.len();
    text.append("<path d=\"M");
    let mut current: usize = 0;
    let mut i: usize = 0;
    while i < path.path.len()
        invariant
            i <= path.path.len(),
            jumps == path@.jumps,
            can_be_drawn(jumps),
            n == verts.len(),
            n > 0,
            current < n,
            current == corner_at(jumps, i as int, n as int),
            text@ == start + outline(jumps, verts@, col as int, row as int, i as int),
        decreases path.path.len() - i,
    {
        let point = point_from_vertex(verts[current], col, row);
        if i > 0 {
            text.append("L");
        }
        append_decimal(text, point.0);
        text.append(",");
        append_decimal(text, point.1);
        let jump: i32 = path.path[i];
        assert(jumps[i as int] == jump);
        current = step_from(current, jump, n);
        i += 1;
        assert(text@ =~= start + outline(jumps, verts@, col as int, row as int, i as int));
    }
    text.append("Z\"/>\r\n");
    assert(final(text)@ =~= old(text)@ + shape_element(
        path@.jumps,
        verts@,
        col as int,
        row as int,
    ));
}

/// The group of path elements that draw `paths`, set out in rows of `square`
/// diagrams, on a polygon whose corners lie at `verts` relative to its centre.
pub fn svg_shapes_from_paths(paths: &[PolyPath], square: i32, verts: &Vec<(i32, i32)>) -> (result:
    String)
    requires
        square > 0,
        paths.len() <= i32::MAX,
        verts.len() > 0,
        forall|i: int| 0 <= i < paths.len() ==> can_be_drawn(#[trigger] paths[i]@.jumps),
    ensures
        result@ == shape_group(shapes(paths@), verts@, square as int),
{
    let mut result = String::from_str("");
    proof {
        reveal_strlit("");
        assert(result@ =~= Seq::<char>::empty());
    }
    result.append(
        "<g stroke=\"black\" stroke-linejoin=\"bevel\" stroke-width=\"3\" fill=\"none\" marker-start=\"url(#top-vert)\" marker-mid=\"url(#vert)\">\r\n",
    );
    let ghost list = shapes(paths@);
    let ghost start = result@;
    let mut i: usize = 0;
    while i < paths.len()
        invariant
            i <= paths.len() <= i32::MAX,
            square > 0,
            verts.len() > 0,
            list == shapes(paths@),
            forall|j: int| 0 <= j < paths.len() ==> can_be_drawn(#[trigger] paths[j]@.jumps),
            result@ == start + shape_elements(list, verts@, square as int, i as int),
        decreases paths.len() - i,
    {
        let col: i32 = i as i32 % square;
        let row: i32 = i as i32 / square;
        assert(list[i as int] == paths[i as int]@);
        append_shape_element(&mut result, &paths[i], verts, col, row);
        i += 1;
        assert(result@ =~= start + shape_elements(list, verts@, square as int, i as int));
    }
    result.append("</g>\r\n");
    assert(result@ =~= shape_group(list, verts@, square as int));
    result
}

/// The declaration that opens every drawing.
pub open spec fn prologue() -> Seq<char> {
    "<?xml version=\"1.0\" encoding=\"UTF-8\" standalone=\"no\"?>\r\n<!DOCTYPE svg PUBLIC \"-//W3C//DTD SVG 1.1//EN\" \"http://www.w3.org/Graphics/SVG/1.1/DTD/svg11.dtd\">\r\n"@
}

/// The opening tag of a square drawing `width` wide.
pub open spec fn opening_tag(width: int) -> Seq<char> {
    "<svg width=\""@ + decimal(width) + "\" height=\""@ + decimal(width) + "\" viewBox=\"0 0 "@
        + decimal(width) + " "@ + decimal(width)
        + "\" xmlns=\"http://www.w3.org/2000/svg\" xmlns:xlink=\"http://www.w3.org/1999/xlink\">\r\n"@
}

/// The marks for the corners of a polygon: one for the corner where the path
/// begins and one for the others.
pub open spec fn markers() -> Seq<char> {
    "<marker id=\"top-vert\" viewBox=\"-5 -5 10 10\" markerUnits=\"userSpaceOnUse\" markerWidth=\"10\" markerHeight=\"10\"><circle r=\"5\" fill=\"red\"/><circle r=\"3\" fill=\"white\"/></marker>\r\n<marker id=\"vert\" viewBox=\"-5 -5 10 10\" markerUnits=\"userSpaceOnUse\" markerWidth=\"10\" markerHeight=\"10\"><circle r=\"5\" fill=\"red\"/></marker>\r\n"@
}

/// The pattern that frames one diagram of the grid.
pub open spec fn grid_pattern() -> Seq<char> {
    "<pattern id=\"grid\" patternUnits=\"userSpaceOnUse\" viewBox=\"0 0 "@ + decimal(4 * SCALE)
        + " "@ + decimal(4 * SCALE) + "\" width=\""@ + decimal(4 * SCALE) + "\" height=\""@
        + decimal(4 * SCALE) + "\"><rect x=\".5\" y=\".5\" width=\""@ + decimal(4 * SCALE)
        + "\" height=\""@ + decimal(4 * SCALE)
        + "\" stroke=\"black\" fill=\"white\" /></pattern>\r\n"@
}

/// A framed square `side` wide in the top left corner, filled with `fill`.
pub open spec fn backdrop(side: int, fill: Seq<char>) -> Seq<char> {
    "<rect x=\".5\" y=\".5\" width=\""@ + decimal(side) + "\" height=\""@ + decimal(side)
        + "\" stroke=\"black\" fill=\""@ + fill + "\"/>\r\n"@
}

/// The drawing of one path: a single diagram with its label.
pub open spec fn drawing_of_one(shape: Shape, verts: Seq<(i32, i32)>) -> Seq<char> {
    prologue() + opening_tag(4 * SCALE + 1) + "<defs>\r\n"@ + markers() + "</defs>\r\n"@
        + backdrop(4 * SCALE, "white"@) + label_element(shape.jumps, 0, 0) + group_opening()
        + shape_element(shape.jumps, verts, 0, 0) + "</g>\r\n"@ + "</svg>"@
}

/// The full rows of the grid: `rows` rows of `square` diagrams each.
pub open spec fn full_rows(square: int, rows: int) -> Seq<char> {
    "<rect width=\""@ + decimal(4 * SCALE * square + 1) + "\" height=\""@ + decimal(
        4 * SCALE * rows + 1,
    ) + "\" fill=\"url(#grid)\"/>\r\n"@
}

/// The last row of the grid where it is not full: `rest` diagrams below
/// `rows` full rows, and nothing where no diagrams are left over.
pub open spec fn partial_row(rows: int, rest: int) -> Seq<char> {
    if rest == 0 {
        Seq::empty()
    } else {
        "<rect y=\""@ + decimal(4 * SCALE * rows) + "\" width=\""@ + decimal(4 * SCALE * rest + 1)
            + "\" height=\""@ + decimal(4 * SCALE + 1) + "\" fill=\"url(#grid)\"/>\r\n"@
    }
}

/// The drawing of a list of paths: their diagrams in the rows of a square
/// grid, on a grey ground, each with its label.
pub open spec fn drawing_of_all(list: Seq<Shape>, verts: Seq<(i32, i32)>) -> Seq<char> {
    let count = list.len() as int;
    let square = side_of(count);
    prologue() + opening_tag(4 * SCALE * square + 1) + "<defs>\r\n"@ + grid_pattern() + markers()
        + "</defs>\r\n"@ + backdrop(4 * SCALE * square, "#999"@) + full_rows(
        square,
        count / square,
    ) + partial_row(count / square, count % square) + label_elements(list, square, count)
        + shape_group(list, verts, square) + "</svg>"@
}

/// The declaration and the opening tag of a drawing `width` wide.
fn opening(width: i64) -> (text: String)
    ensures
        text@ == prologue() + opening_tag(width as int),
{
    let mut text = String::from_str(
        "<?xml version=\"1.0\" encoding=\"UTF-8\" standalone=\"no\"?>\r\n<!DOCTYPE svg PUBLIC \"-//W3C//DTD SVG 1.1//EN\" \"http://www.w3.org/Graphics/SVG/1.1/DTD/svg11.dtd\">\r\n",
    );
    text.append("<svg width=\"");
    append_decimal(&mut text, width);
    text.append("\" height=\"");
    append_decimal(&mut text, width);
    text.append("\" viewBox=\"0 0 ");
    append_decimal(&mut text, width);
    text.append(" ");
    append_decimal(&mut text, width);
    text.append(
        "\" xmlns=\"http://www.w3.org/2000/svg\" xmlns:xlink=\"http://www.w3.org/1999/xlink\">\r\n",
    );
    assert(text@ =~= prologue() + opening_tag(width as int));
    text
}

/// Writes the full rows of the grid at the end of `text`.
fn append_full_rows(text: &mut String, square: i32, rows: i32)
    requires
        0 <= square,
        0 <= rows,
    ensures
        final(text)@ == old(text)@ + full_rows(square as int, rows as int),
{
    let cell: i64 = 4 * (SCALE as i64);
    assert(cell == 200);
    text.append("<rect width=\"");
    append_decimal(text, cell * (square as i64) + 1);
    text.append("\" height=\"");
    append_decimal(text, cell * (rows as i64) + 1);
    text.append("\" fill=\"url(#grid)\"/>\r\n");
    assert(final(text)@ =~= old(text)@ + full_rows(square as int, rows as int));
}

/// Writes the last row of the grid, where it is not full, at the end of
/// `text`.
fn append_partial_row(text: &mut String, rows: i32, rest: i32)
    requires
        0 <= rows,
        0 <= rest,
    ensures
        final(text)@ == old(text)@ + partial_row(rows as int, rest as int),
{
    let cell: i64 = 4 * (SCALE as i64);
    assert(cell == 200);
    if rest != 0 {
        text.append("<rect y=\"");
        append_decimal(text, cell * (rows as i64));
        text.append("\" width=\"");
        append_decimal(text, cell * (rest as i64) + 1);
        text.append("\" height=\"");
        append_decimal(text, cell + 1);
        text.append("\" fill=\"url(#grid)\"/>\r\n");
    }
    assert(final(text)@ =~= old(text)@ + partial_row(rows as int, rest as int));
}

/// Writes the marks for the corners at the end of `text`.
fn append_markers(text: &mut String)
    ensures
        final(text)@ == old(text)@ + markers(),
{
    text.append(
        "<marker id=\"top-vert\" viewBox=\"-5 -5 10 10\" markerUnits=\"userSpaceOnUse\" markerWidth=\"10\" markerHeight=\"10\"><circle r=\"5\" fill=\"red\"/><circle r=\"3\" fill=\"white\"/></marker>\r\n<marker id=\"vert\" viewBox=\"-5 -5 10 10\" markerUnits=\"userSpaceOnUse\" markerWidth=\"10\" markerHeight=\"10\"><circle r=\"5\" fill=\"red\"/></marker>\r\n",
    );
}

/// Writes the pattern that frames one diagram at the end of `text`.
fn append_grid_pattern(text: &mut String)
    ensures
        final(text)@ == old(text)@ + grid_pattern(),
{
    let cell: i64 = 4 * (SCALE as i64);
    text.append("<pattern id=\"grid\" patternUnits=\"userSpaceOnUse\" viewBox=\"0 0 ");
    append_decimal(text, cell);
    text.append(" ");
    append_decimal(text, cell);
    text.append("\" width=\"");
    append_decimal(text, cell);
    text.append("\" height=\"");
    append_decimal(text, cell);
    text.append("\"><rect x=\".5\" y=\".5\" width=\"");
    append_decimal(text, cell);
    text.append("\" height=\"");
    append_decimal(text, cell);
    text.append("\" stroke=\"black\" fill=\"white\" /></pattern>\r\n");
    assert(final(text)@ =~= old(text)@ + grid_pattern());
}

/// Writes a framed square `side` wide, filled with `fill`, at the end of
/// `text`.
fn append_backdrop(text: &mut String, side: i64, fill: &str)
    ensures
        final(text)@ == old(text)@ + backdrop(side as int, fill@),
{
    text.append("<rect x=\".5\" y=\".5\" width=\"");
    append_decimal(text, side);
    text.append("\" height=\"");
    append_decimal(text, side);
    text.append("\" stroke=\"black\" fill=\"");
    text.append(fill);
    text.append("\"/>\r\n");
    assert(final(text)@ =~= old(text)@ + backdrop(side as int, fill@));
}

/// The drawing of one path: a single diagram with its label, on a polygon
/// whose corners lie at `verts` relative to its centre.
pub fn svg_from_path(path: &PolyPath, verts: &Vec<(i32, i32)>) -> (result: String)
    requires
        has_label(path@.jumps),
        can_be_drawn(path@.jumps),
        0 < path.size == verts.len(),
    ensures
        result@ == drawing_of_one(path@, verts@),
{
    let cell: i64 = 4 * (SCALE as i64);
    let mut result = opening(cell + 1);
    result.append("<defs>\r\n");
    append_markers(&mut result);
    result.append("</defs>\r\n");
    append_backdrop(&mut result, cell, "white");
    append_label_element(&mut result, path, 0, 0);
    result.append(
        "<g stroke=\"black\" stroke-linejoin=\"bevel\" stroke-width=\"3\" fill=\"none\" marker-start=\"url(#top-vert)\" marker-mid=\"url(#vert)\">\r\n",
    );
    append_shape_element(&mut result, path, verts, 0, 0);
    result.append("</g>\r\n");
    result.append("</svg>");
    result
}

/// The drawing of all of `paths`: their diagrams in the rows of a square
/// grid, each with its label, on a polygon whose corners lie at `verts`
/// relative to its centre.
pub fn svg_from_paths(paths: Vec<PolyPath>, verts: &Vec<(i32, i32)>) -> (result: String)
    requires
        0 < paths.len() <= i32::MAX,
        verts.len() > 0,
        forall|i: int| 0 <= i < paths.len() ==> has_label(#[trigger] paths[i]@.jumps),
        forall|i: int| 0 <= i < paths.len() ==> can_be_drawn(#[trigger] paths[i]@.jumps),
    ensures
        result@ == drawing_of_all(shapes(paths@), verts@),
{
    let cell: i64 = 4 * (SCALE as i64);
    assert(cell == 200);
    let count: i32 = paths.len() as i32;
    let square: i32 = grid_side(count);
    let rows: i32 = count / square;
    let rest: i32 = count % square;
    let mut result = opening(cell * (square as i64) + 1);
    result.append("<defs>\r\n");
    append_grid_pattern(&mut result);
    append_markers(&mut result);
    result.append("</defs>\r\n");
    append_backdrop(&mut result, cell * (square as i64), "#999");
    append_full_rows(&mut result, square, rows);
    append_partial_row(&mut result, rows, rest);
    let labels = svg_labels_from_paths(paths.as_slice(), square);
    result.append(labels.as_str());
    let group = svg_shapes_from_paths(paths.as_slice(), square, verts);
    result.append(group.as_str());
    result.append("</svg>");
    result
}

} // verus!
