use polypaths::paths::{find_paths, PolyPath};
use polypaths::render::{
    append_decimal, append_digits, append_label, digit_text, grid_side, point_from_vertex,
    svg_from_path, svg_from_paths, svg_labels_from_paths, svg_shapes_from_paths, SCALE,
};

fn corners(n: i32) -> Vec<(i32, i32)> {
    (0..n)
        .map(|x| {
            let angle = x as f64 * std::f64::consts::TAU / n as f64;
            (
                (angle.sin() * SCALE as f64).round() as i32,
                (-angle.cos() * SCALE as f64).round() as i32,
            )
        })
        .collect()
}

fn path(jumps: &[i32]) -> PolyPath {
    PolyPath { size: jumps.len() as i32, path: jumps.to_vec() }
}

fn decimal(x: i64) -> String {
    let mut text = String::from("=");
    append_decimal(&mut text, x);
    text
}

const PROLOGUE: &str = "<?xml version=\"1.0\" encoding=\"UTF-8\" standalone=\"no\"?>\r\n<!DOCTYPE svg PUBLIC \"-//W3C//DTD SVG 1.1//EN\" \"http://www.w3.org/Graphics/SVG/1.1/DTD/svg11.dtd\">\r\n";
const MARKERS: &str = "<marker id=\"top-vert\" viewBox=\"-5 -5 10 10\" markerUnits=\"userSpaceOnUse\" markerWidth=\"10\" markerHeight=\"10\"><circle r=\"5\" fill=\"red\"/><circle r=\"3\" fill=\"white\"/></marker>\r\n<marker id=\"vert\" viewBox=\"-5 -5 10 10\" markerUnits=\"userSpaceOnUse\" markerWidth=\"10\" markerHeight=\"10\"><circle r=\"5\" fill=\"red\"/></marker>\r\n";
const GROUP: &str = "<g stroke=\"black\" stroke-linejoin=\"bevel\" stroke-width=\"3\" fill=\"none\" marker-start=\"url(#top-vert)\" marker-mid=\"url(#vert)\">\r\n";

#[test]
fn numbers_in_decimal() {
    assert_eq!(decimal(0), "=0");
    assert_eq!(decimal(7), "=7");
    assert_eq!(decimal(10), "=10");
    assert_eq!(decimal(201), "=201");
    assert_eq!(decimal(12345), "=12345");
    assert_eq!(decimal(-1), "=-1");
    assert_eq!(decimal(-40), "=-40");
    assert_eq!(decimal(i64::MAX), "=9223372036854775807");
    assert_eq!(decimal(i64::MIN), "=-9223372036854775808");
    let mut text = String::new();
    append_digits(&mut text, 0);
    append_digits(&mut text, 909);
    append_digits(&mut text, u64::MAX);
    assert_eq!(text, "090918446744073709551615");
}

#[test]
fn digits_to_the_base_36() {
    assert_eq!(digit_text(0), "0");
    assert_eq!(digit_text(9), "9");
    assert_eq!(digit_text(10), "A");
    assert_eq!(digit_text(35), "Z");
    let mut text = String::from("#");
    append_label(&mut text, &path(&[1, 10, 35, 0, 12]));
    assert_eq!(text, "#1AZ0C");
}

#[test]
fn grid_side_is_the_root_rounded_up() {
    assert_eq!(grid_side(0), 0);
    assert_eq!(grid_side(1), 1);
    assert_eq!(grid_side(2), 2);
    assert_eq!(grid_side(4), 2);
    assert_eq!(grid_side(5), 3);
    assert_eq!(grid_side(9), 3);
    assert_eq!(grid_side(10), 4);
    assert_eq!(grid_side(1219), 35);
    assert_eq!(grid_side(1225), 35);
    assert_eq!(grid_side(1226), 36);
    assert_eq!(grid_side(i32::MAX), 46341);
    for count in 0..5000 {
        assert_eq!(grid_side(count), (count as f64).sqrt().ceil() as i32);
    }
}

#[test]
fn corners_are_placed_in_their_cell() {
    assert_eq!(point_from_vertex((0, -50), 0, 0), (100, 50));
    assert_eq!(point_from_vertex((43, 25), 2, 1), (543, 325));
    assert_eq!(point_from_vertex((-50, 0), 0, 3), (50, 700));
}

#[test]
fn labels_are_set_out_in_rows() {
    let paths = vec![path(&[1, 1, 1]), path(&[1, 2, 3, 2]), path(&[11, 1, 1])];
    assert_eq!(svg_labels_from_paths(&paths[..1], 1), "<text x=\"10\" y=\"15\">111</text>\r\n");
    assert_eq!(
        svg_labels_from_paths(&paths, 2),
        "<text x=\"10\" y=\"15\">111</text>\r\n<text x=\"210\" y=\"15\">1232</text>\r\n<text x=\"10\" y=\"215\">B11</text>\r\n"
    );
    assert_eq!(svg_labels_from_paths(&[], 3), "");
}

#[test]
fn shapes_follow_the_walk() {
    let verts = corners(4);
    assert_eq!(verts, vec![(0, -50), (50, 0), (0, 50), (-50, 0)]);
    let paths = vec![path(&[1, 1, 1, 1]), path(&[1, 2, 3, 2])];
    let expected = format!(
        "{}<path d=\"M100,50L150,100L100,150L50,100Z\"/>\r\n<path d=\"M300,50L350,100L250,100L300,150Z\"/>\r\n</g>\r\n",
        GROUP
    );
    assert_eq!(svg_shapes_from_paths(&paths, 2, &verts), expected);
    let below = format!(
        "{}<path d=\"M100,50L150,100L100,150L50,100Z\"/>\r\n<path d=\"M100,250L150,300L50,300L100,350Z\"/>\r\n</g>\r\n",
        GROUP
    );
    assert_eq!(svg_shapes_from_paths(&paths, 1, &verts), below);
    assert_eq!(svg_shapes_from_paths(&[], 1, &verts), format!("{}</g>\r\n", GROUP));
}

#[test]
fn drawing_of_one_path() {
    let verts = corners(3);
    assert_eq!(verts, vec![(0, -50), (43, 25), (-43, 25)]);
    let expected = format!(
        "{}<svg width=\"201\" height=\"201\" viewBox=\"0 0 201 201\" xmlns=\"http://www.w3.org/2000/svg\" xmlns:xlink=\"http://www.w3.org/1999/xlink\">\r\n<defs>\r\n{}</defs>\r\n<rect x=\".5\" y=\".5\" width=\"200\" height=\"200\" stroke=\"black\" fill=\"white\"/>\r\n<text x=\"10\" y=\"15\">111</text>\r\n{}<path d=\"M100,50L143,125L57,125Z\"/>\r\n</g>\r\n</svg>",
        PROLOGUE, MARKERS, GROUP
    );
    assert_eq!(svg_from_path(&path(&[1, 1, 1]), &verts), expected);
}

#[test]
fn drawing_of_the_paths_of_the_square() {
    let verts = corners(4);
    let paths = find_paths(4).expect("four corners");
    let expected = format!(
        "{}<svg width=\"401\" height=\"401\" viewBox=\"0 0 401 401\" xmlns=\"http://www.w3.org/2000/svg\" xmlns:xlink=\"http://www.w3.org/1999/xlink\">\r\n<defs>\r\n<pattern id=\"grid\" patternUnits=\"userSpaceOnUse\" viewBox=\"0 0 200 200\" width=\"200\" height=\"200\"><rect x=\".5\" y=\".5\" width=\"200\" height=\"200\" stroke=\"black\" fill=\"white\" /></pattern>\r\n{}</defs>\r\n<rect x=\".5\" y=\".5\" width=\"400\" height=\"400\" stroke=\"black\" fill=\"#999\"/>\r\n<rect width=\"401\" height=\"201\" fill=\"url(#grid)\"/>\r\n<text x=\"10\" y=\"15\">1111</text>\r\n<text x=\"210\" y=\"15\">1232</text>\r\n{}<path d=\"M100,50L150,100L100,150L50,100Z\"/>\r\n<path d=\"M300,50L350,100L250,100L300,150Z\"/>\r\n</g>\r\n</svg>",
        PROLOGUE, MARKERS, GROUP
    );
    assert_eq!(svg_from_paths(paths, &verts), expected);
}

#[test]
fn drawing_with_a_last_row_that_is_not_full() {
    let verts = corners(3);
    let paths = vec![path(&[1, 1, 1]), path(&[2, 2, 2]), path(&[1, 1, 1])];
    let text = svg_from_paths(paths, &verts);
    assert!(text.contains("<rect width=\"401\" height=\"201\" fill=\"url(#grid)\"/>\r\n<rect y=\"200\" width=\"201\" height=\"201\" fill=\"url(#grid)\"/>\r\n<text x=\"10\" y=\"15\">111</text>"));
    assert!(text.contains("<text x=\"10\" y=\"215\">111</text>\r\n"));
    assert!(text.ends_with("<path d=\"M100,250L143,325L57,325Z\"/>\r\n</g>\r\n</svg>"));
    let single = svg_from_paths(vec![path(&[1, 1, 1])], &verts);
    assert!(single.contains("<rect width=\"201\" height=\"201\" fill=\"url(#grid)\"/>\r\n<text"));
}
