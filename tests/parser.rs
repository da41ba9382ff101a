use dxf_parser::codes::{classify, pair_lines, parse_code, EntityKind, Pair};
use dxf_parser::fields::FieldTable;
use dxf_parser::geometry::{parse_3dface, parse_line, parse_point, E3DFace, Entity, Line, Point};
use dxf_parser::machine::{parse_lines, DXFParser};

fn lines_of(text: &str) -> Vec<String> {
    text.lines().map(String::from).collect()
}

fn numbers_of(lines: &[String]) -> Vec<f64> {
    lines.iter().map(|l| l.parse::<f64>().unwrap_or(0.0)).collect()
}

fn read(text: &str) -> Vec<Entity<f64>> {
    let lines = lines_of(text);
    let numbers = numbers_of(&lines);
    parse_lines(&lines, &numbers, 0.0)
}

fn pt(x: f64, y: f64, z: f64) -> Point<f64> {
    Point { x, y, z }
}

#[test]
fn minimal_point() {
    let out = read("0\nPOINT\n10\n1.0\n20\n2.0\n30\n3.0\n0\nEOF\n");
    assert_eq!(out, vec![Entity::Point(pt(1.0, 2.0, 3.0))]);
}

#[test]
fn unterminated_entity_is_dropped() {
    let out = read("0\nPOINT\n10\n1.0\n");
    assert!(out.is_empty());
}

#[test]
fn unsupported_type_is_skipped() {
    let out = read("0\nCIRCLE\n10\n5.0\n0\nPOINT\n10\n9.0\n20\n9.0\n30\n9.0\n0\nEOF\n");
    assert_eq!(out, vec![Entity::Point(pt(9.0, 9.0, 9.0))]);
}

#[test]
fn stray_line_is_skipped() {
    let out = read("0\nPOINT\nstray\n10\n1.0\n20\n2.0\n30\n3.0\n0\nEOF\n");
    assert_eq!(out, vec![Entity::Point(pt(1.0, 2.0, 3.0))]);
}

#[test]
fn face_vertices_keep_their_order() {
    let text = "0\n3DFACE\n10\n1\n20\n2\n30\n3\n11\n4\n21\n5\n31\n6\n\
                12\n7\n22\n8\n32\n9\n13\n10\n23\n11\n33\n12\n0\nEOF\n";
    let out = read(text);
    let expected = E3DFace {
        points: [pt(1.0, 2.0, 3.0), pt(4.0, 5.0, 6.0), pt(7.0, 8.0, 9.0), pt(10.0, 11.0, 12.0)],
    };
    assert_eq!(out, vec![Entity::Face(expected)]);
}

#[test]
fn line_start_and_end() {
    let out = read("0\nLINE\n10\n1\n20\n2\n30\n3\n11\n4\n21\n5\n31\n6\n0\nEOF\n");
    let expected = Line { start: pt(1.0, 2.0, 3.0), end: pt(4.0, 5.0, 6.0) };
    assert_eq!(out, vec![Entity::Line(expected)]);
}

#[test]
fn count_matches_closed_known_boundaries() {
    // boundaries: POINT, LINE, CIRCLE, 3DFACE, POINT, EOF -> closes POINT, LINE, CIRCLE(skip), 3DFACE, POINT
    let text = "0\nPOINT\n0\nLINE\n0\nCIRCLE\n0\n3DFACE\n0\nPOINT\n0\nEOF\n";
    assert_eq!(read(text).len(), 4);
    // no final boundary: the last entity stays open
    let text = "0\nPOINT\n0\nLINE\n0\nPOINT\n10\n1\n";
    assert_eq!(read(text).len(), 2);
}

#[test]
fn missing_fields_read_as_default() {
    let out = read("0\nPOINT\n20\n2.5\n0\nLINE\n0\nEOF\n");
    assert_eq!(
        out,
        vec![
            Entity::Point(pt(0.0, 2.5, 0.0)),
            Entity::Line(Line { start: pt(0.0, 0.0, 0.0), end: pt(0.0, 0.0, 0.0) }),
        ]
    );
    let lines = lines_of("0\nPOINT\n0\nEOF\n");
    let numbers = numbers_of(&lines);
    assert_eq!(parse_lines(&lines, &numbers, -1.0), vec![Entity::Point(pt(-1.0, -1.0, -1.0))]);
}

#[test]
fn non_numeric_value_reads_as_zero() {
    let out = read("0\nPOINT\n10\nabc\n20\n4\n0\nEOF\n");
    assert_eq!(out, vec![Entity::Point(pt(0.0, 4.0, 0.0))]);
}

#[test]
fn second_write_wins() {
    let out = read("0\nPOINT\n10\n1.0\n20\n2.0\n10\n7.5\n0\nEOF\n");
    assert_eq!(out, vec![Entity::Point(pt(7.5, 2.0, 0.0))]);
}

#[test]
fn fields_are_cleared_between_entities() {
    let out = read("0\nPOINT\n10\n1\n20\n2\n30\n3\n0\nPOINT\n10\n4\n0\nEOF\n");
    assert_eq!(out, vec![Entity::Point(pt(1.0, 2.0, 3.0)), Entity::Point(pt(4.0, 0.0, 0.0))]);
}

#[test]
fn code_on_last_line_ends_the_records() {
    let lines = lines_of("0\nPOINT\n10\n1\n0\n");
    assert_eq!(
        pair_lines(&lines),
        vec![Pair { code: 0, value_line: 1 }, Pair { code: 10, value_line: 3 }]
    );
    assert!(read("0\nPOINT\n10\n1\n0\n").is_empty());
}

#[test]
fn pairing_resumes_after_bad_code() {
    let lines = lines_of("x\n0\nPOINT\n 10 \n1\n");
    assert_eq!(
        pair_lines(&lines),
        vec![Pair { code: 0, value_line: 2 }, Pair { code: 10, value_line: 4 }]
    );
    assert!(pair_lines(&Vec::new()).is_empty());
}

#[test]
fn group_code_lines() {
    assert_eq!(parse_code("10"), Some(10));
    assert_eq!(parse_code("  0\t"), Some(0));
    assert_eq!(parse_code("+7"), Some(7));
    assert_eq!(parse_code("-5"), Some(-5));
    assert_eq!(parse_code("007"), Some(7));
    assert_eq!(parse_code("2147483647"), Some(i32::MAX));
    assert_eq!(parse_code("-2147483648"), Some(i32::MIN));
    assert_eq!(parse_code("2147483648"), None);
    assert_eq!(parse_code("-2147483649"), None);
    assert_eq!(parse_code("99999999999999999999"), None);
    assert_eq!(parse_code(""), None);
    assert_eq!(parse_code("   "), None);
    assert_eq!(parse_code("-"), None);
    assert_eq!(parse_code("1 0"), None);
    assert_eq!(parse_code("1.0"), None);
    assert_eq!(parse_code("POINT"), None);
    assert_eq!(parse_code("\u{3000}42\u{a0}"), Some(42));
}

#[test]
fn type_names() {
    assert_eq!(classify("POINT"), EntityKind::Point);
    assert_eq!(classify("LINE"), EntityKind::Line);
    assert_eq!(classify("3DFACE"), EntityKind::Face);
    assert_eq!(classify("CIRCLE"), EntityKind::Other);
    assert_eq!(classify("point"), EntityKind::Other);
    assert_eq!(classify("POINT "), EntityKind::Other);
    assert_eq!(classify(""), EntityKind::Other);
}

#[test]
fn field_table_last_write_wins() {
    let mut t: FieldTable<f64> = FieldTable::new();
    assert_eq!(t.get_or(10, 0.0), 0.0);
    t.set(10, 1.0);
    t.set(20, 2.0);
    t.set(10, 3.0);
    assert_eq!(t.get_or(10, 0.0), 3.0);
    assert_eq!(t.get_or(20, 0.0), 2.0);
    assert_eq!(t.get_or(30, -1.0), -1.0);
    t.clear();
    assert_eq!(t.get_or(10, 0.0), 0.0);
}

#[test]
fn decoding_twice_gives_the_same_records() {
    let mut t: FieldTable<f64> = FieldTable::new();
    for (i, c) in [10, 20, 30, 11, 21, 31, 12, 22, 32, 13, 23, 33].iter().enumerate() {
        t.set(*c, i as f64 + 0.5);
    }
    assert_eq!(parse_point(&t, 0.0), parse_point(&t, 0.0));
    assert_eq!(parse_line(&t, 0.0), parse_line(&t, 0.0));
    assert_eq!(parse_3dface(&t, 0.0), parse_3dface(&t, 0.0));
    assert_eq!(parse_point(&t, 0.0), pt(0.5, 1.5, 2.5));
    assert_eq!(parse_line(&t, 0.0).end, pt(3.5, 4.5, 5.5));
    assert_eq!(parse_3dface(&t, 0.0).points[3], pt(9.5, 10.5, 11.5));
}

#[test]
fn parser_steps() {
    let mut p: DXFParser<f64> = DXFParser::new(0.0);
    assert_eq!(p.step(0, "LINE", 0.0), None);
    assert_eq!(p.step(11, "4", 4.0), None);
    assert_eq!(
        p.step(0, "POINT", 0.0),
        Some(Entity::Line(Line { start: pt(0.0, 0.0, 0.0), end: pt(4.0, 0.0, 0.0) }))
    );
    assert_eq!(p.step(30, "1", 1.0), None);
    assert_eq!(p.step(0, "CIRCLE", 0.0), Some(Entity::Point(pt(0.0, 0.0, 1.0))));
    assert_eq!(p.step(10, "1", 1.0), None);
    assert_eq!(p.step(0, "EOF", 0.0), None);
}
