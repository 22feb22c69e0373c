use arcweld::codec::{emit, feed, parse_tag, trim_chars, Drawing, Entity, Fault, Feed, Mode, Slots};
use arcweld::error::{eof, missing_tag_for_entity, unexpected_tag, WeldError};
use arcweld::text::push_int;

fn line(x1: &str, y1: &str, x2: &str, y2: &str) -> Entity {
    Entity::Line { x1: x1.to_string(), y1: y1.to_string(), x2: x2.to_string(), y2: y2.to_string() }
}

fn coords(e: &Entity) -> Vec<String> {
    match e {
        Entity::Line { x1, y1, x2, y2 } => vec![x1.clone(), y1.clone(), x2.clone(), y2.clone()],
        Entity::Arc { cx, cy, radius, start_angle, end_angle } => {
            vec![cx.clone(), cy.clone(), radius.clone(), start_angle.clone(), end_angle.clone()]
        },
        Entity::Circle { cx, cy, radius } => vec![cx.clone(), cy.clone(), radius.clone()],
    }
}

const DOC: &str = "  0\nSECTION\n  2\nHEADER\n  9\n$ACADVER\n  1\nAC1014\n  0\nENDSEC\n  0\nSECTION\n  2\nENTITIES\n  0\nLINE\n  8\n0\n 10\n1.5\n 20\n-2\n 11\n3\n 21\n4\n  0\nLINE\n 10\n0\n 20\n0\n 11\n1\n 21\n1\n  0\nENDSEC\n  0\nEOF\n";

#[test]
fn parses_lines_and_skips_other_sections() {
    let d = Drawing::parse(DOC).ok().unwrap();
    assert_eq!(d.entities.len(), 2);
    assert_eq!(coords(&d.entities[0]), vec!["1.5", "-2", "3", "4"]);
    assert_eq!(coords(&d.entities[1]), vec!["0", "0", "1", "1"]);
}

#[test]
fn blank_lines_and_spaces_are_ignored() {
    let doc = "\r\n  0 \r\nSECTION\r\n\r\n2\nENTITIES\n0\nLINE\n10\n 1 \n20\n2\n11\n3\n21\n4\n0\nENDSEC\n 0\r\nEOF";
    let d = Drawing::parse(doc).ok().unwrap();
    assert_eq!(coords(&d.entities[0]), vec!["1", "2", "3", "4"]);
}

#[test]
fn later_value_of_a_tag_wins() {
    let doc = "0\nSECTION\n2\nENTITIES\n0\nLINE\n10\n1\n10\n7\n20\n2\n11\n3\n21\n4\n0\nENDSEC\n0\nEOF\n";
    let d = Drawing::parse(doc).ok().unwrap();
    assert_eq!(coords(&d.entities[0]), vec!["7", "2", "3", "4"]);
}

#[test]
fn truncated_document_is_refused() {
    let doc = "  0\nSECTION\n  2\nENTITIES\n  0\nLINE\n  10\n1\n  20\n2\n  11\n3\n  21\n4\n";
    let e = Drawing::parse(doc).err().unwrap();
    assert_eq!(e.message, "unexpected eof");
    assert!(Drawing::parse("0\nSECTION\n2\nENTITIES\n0\nENDSEC\n").is_err());
    assert!(Drawing::parse("").is_err());
}

#[test]
fn section_needs_tag_zero() {
    let e = Drawing::parse("7\nSECTION\n2\nENTITIES\n0\nENDSEC\n0\nEOF\n").err().unwrap();
    assert_eq!(e.message, "unexpected tag: 7, expected: 0");
    let e = Drawing::parse("3\nEOF\n").err().unwrap();
    assert_eq!(e.message, "unexpected tag: 3, expected: 0");
}

#[test]
fn text_after_eof_is_ignored() {
    let d = Drawing::parse("0\nEOF\nnot a tag\n").ok().unwrap();
    assert!(d.entities.is_empty());
}

#[test]
fn parse_errors() {
    let e = Drawing::parse("0\nSECTION\n2\nENTITIES\n0\nARC\n0\nENDSEC\n").err().unwrap();
    assert_eq!(e.message, "unsupported entity type: ARC");
    let e = Drawing::parse("0\nSECTION\n2\nENTITIES\n0\nLINE\n10\n1\n20\n2\n11\n3\n0\nENDSEC\n").err().unwrap();
    assert_eq!(e.message, "missing tag for entity: 21");
    let e = Drawing::parse("0\nSECTION\n3\nENTITIES\n").err().unwrap();
    assert_eq!(e.message, "unexpected tag: 3, expected: 2");
    let e = Drawing::parse("0\nBLOCK\n").err().unwrap();
    assert_eq!(e.message, "expected SECTION, got BLOCK");
    let e = Drawing::parse("0\nSECTION\n2\n").err().unwrap();
    assert_eq!(e.message, "unexpected eof");
    assert!(Drawing::parse("x\nSECTION\n").is_err());
}

#[test]
fn writes_the_document_skeleton() {
    let d = Drawing { entities: vec![line("0", "0", "1", "0")] };
    let expected = "  0\nSECTION\n  2\nBLOCKS\n  0\nENDSEC\n  0\nSECTION\n  2\nENTITIES\n  0\nLINE\n  8\n0\n  10\n0\n  20\n0\n  11\n1\n  21\n0\n  0\nENDSEC\n  0\nSECTION\n  2\nOBJECTS\n  0\nDICTIONARY\n  0\nENDSEC\n  0\nEOF\n";
    assert_eq!(d.to_string(), expected);
}

#[test]
fn writes_arcs_and_circles() {
    let d = Drawing {
        entities: vec![
            Entity::Arc {
                cx: "0".to_string(),
                cy: "1".to_string(),
                radius: "2".to_string(),
                start_angle: "0".to_string(),
                end_angle: "90".to_string(),
            },
            Entity::Circle { cx: "5".to_string(), cy: "6".to_string(), radius: "1.25".to_string() },
        ],
    };
    let s = d.to_string();
    assert!(s.contains("  0\nARC\n  8\n0\n  10\n0\n  20\n1\n  40\n2\n  50\n0\n  51\n90\n"));
    assert!(s.contains("  0\nCIRCLE\n  8\n0\n  10\n5\n  20\n6\n  40\n1.25\n"));
}

#[test]
fn round_trip_of_lines() {
    let d = Drawing { entities: vec![line("0", "0", "1", "0"), line("1", "0", "2.5", "-1e-3")] };
    let back = Drawing::parse(&d.to_string()).ok().unwrap();
    assert_eq!(back.entities.len(), 2);
    assert_eq!(coords(&back.entities[0]), coords(&d.entities[0]));
    assert_eq!(coords(&back.entities[1]), coords(&d.entities[1]));
}

#[test]
fn welded_output_cannot_be_welded_again() {
    let d = Drawing {
        entities: vec![Entity::Circle { cx: "5".to_string(), cy: "6".to_string(), radius: "1".to_string() }],
    };
    assert!(d.require_lines().is_err());
    let e = Drawing::parse(&d.to_string()).err().unwrap();
    assert_eq!(e.message, "unsupported entity type: CIRCLE");
    let lines = Drawing { entities: vec![line("0", "0", "1", "0")] };
    assert!(lines.require_lines().is_ok());
}

#[test]
fn tags_read_like_i32() {
    let t = |s: &str| parse_tag(&s.chars().collect());
    assert_eq!(t("0"), Some(0));
    assert_eq!(t("21"), Some(21));
    assert_eq!(t("+7"), Some(7));
    assert_eq!(t("-12"), Some(-12));
    assert_eq!(t("2147483647"), Some(2147483647));
    assert_eq!(t("-2147483648"), Some(-2147483648));
    assert_eq!(t("2147483648"), None);
    assert_eq!(t("99999999999999999999"), None);
    assert_eq!(t("-"), None);
    assert_eq!(t(""), None);
    assert_eq!(t("1a"), None);
}

#[test]
fn trims_unicode_space() {
    let v: Vec<char> = "\u{3000} a b\t\u{a0}".chars().collect();
    assert_eq!(trim_chars(&v), vec!['a', ' ', 'b']);
    let v: Vec<char> = "   ".chars().collect();
    assert!(trim_chars(&v).is_empty());
}

#[test]
fn emit_writes_two_lines() {
    let mut out = String::from("x\n");
    emit(&mut out, 10, "1.5");
    assert_eq!(out, "x\n  10\n1.5\n");
    emit(&mut out, -3, "A");
    assert_eq!(out, "x\n  10\n1.5\n  -3\nA\n");
}

#[test]
fn decimal_text() {
    let mut s = String::new();
    push_int(&mut s, 0);
    push_int(&mut s, -2147483648);
    push_int(&mut s, 905);
    assert_eq!(s, "0-2147483648905");
}

#[test]
fn error_messages() {
    assert_eq!(eof().message, "unexpected eof");
    assert_eq!(unexpected_tag(2, 5).message, "unexpected tag: 5, expected: 2");
    assert_eq!(missing_tag_for_entity(10).message, "missing tag for entity: 10");
    assert_eq!(WeldError::new("m".to_string()).message, "m");
}

#[test]
fn tokens_are_trimmed_non_blank_lines() {
    let t = arcweld::codec::tokenize("  0\r\n\n SECTION \n\t\n2");
    assert_eq!(t, vec![vec!['0'], "SECTION".chars().collect::<Vec<char>>(), vec!['2']]);
    assert!(arcweld::codec::tokenize("").is_empty());
    assert_eq!(arcweld::codec::chars_of("aé"), vec!['a', 'é']);
    assert!(arcweld::codec::is_word(&vec!['E', 'O', 'F'], "EOF"));
    assert!(!arcweld::codec::is_word(&vec!['E', 'O'], "EOF"));
}

#[test]
fn feed_follows_the_sections() {
    let none = Slots { x1: None, y1: None, x2: None, y2: None };
    let w = |s: &str| s.chars().collect::<Vec<char>>();
    assert_eq!(feed(Mode::Outside, none, 0, 1, &w("EOF")), Feed::Halt);
    assert_eq!(feed(Mode::Outside, none, 3, 1, &w("EOF")), Feed::Fail(Fault::NotOpening(3)));
    assert_eq!(feed(Mode::Outside, none, 0, 1, &w("BLOCK")), Feed::Fail(Fault::NotSection(1)));
    assert_eq!(feed(Mode::Header, none, 2, 3, &w("ENTITIES")), Feed::Go { mode: Mode::Dispatch, slots: none, emit: None });
    assert_eq!(feed(Mode::Header, none, 2, 3, &w("TABLES")), Feed::Go { mode: Mode::Skip, slots: none, emit: None });
    assert_eq!(feed(Mode::Header, none, 5, 3, &w("TABLES")), Feed::Fail(Fault::NotHeader(5)));
    assert_eq!(feed(Mode::Dispatch, none, 0, 7, &w("POLYLINE")), Feed::Fail(Fault::Unsupported(7)));
    let full = Slots { x1: Some(1), y1: Some(3), x2: Some(5), y2: Some(7) };
    assert_eq!(
        feed(Mode::InLine, full, 0, 9, &w("ENDSEC")),
        Feed::Go {
            mode: Mode::Outside,
            slots: none,
            emit: Some(arcweld::codec::LineAt { x1: 1, y1: 3, x2: 5, y2: 7 })
        }
    );
    assert_eq!(feed(Mode::InLine, none, 20, 9, &w("4")), Feed::Go { mode: Mode::InLine, slots: Slots { y1: Some(9), ..none }, emit: None });
}
