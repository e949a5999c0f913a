use tpaint::cli::{parse_size, size_of_lowered};
use tpaint::palette::{from_hex, to_hex};
use tpaint::tools::{BrushShape, Tool};

#[test]
fn brush_shape_cycles_through_all_three() {
    let mut s = BrushShape::Round;
    assert_eq!(s.next(), BrushShape::Ellipse);
    s = s.next();
    assert_eq!(s.next(), BrushShape::Square);
    s = s.next();
    assert_eq!(s.next(), BrushShape::Round, "the cycle closes");
    for shape in [BrushShape::Round, BrushShape::Ellipse, BrushShape::Square] {
        assert!(!shape.name().is_empty());
    }
}

#[test]
fn freehand_tools_offer_a_brush() {
    for t in [Tool::Pencil, Tool::Brush, Tool::Eraser] {
        assert!(t.is_freehand(), "{} paints strokes", t.name());
    }
    for t in [Tool::Line, Tool::Rect, Tool::Select, Tool::Text] {
        assert!(!t.is_freehand(), "{} does not paint strokes", t.name());
    }
}

#[test]
fn size_argument_is_parsed_in_any_spelling() {
    assert_eq!(parse_size("1920x1080"), Some((1920, 1080)));
    assert_eq!(parse_size("  800 X 600 "), Some((800, 600)));
    assert_eq!(parse_size("1024×768"), Some((1024, 768)));
}

#[test]
fn wrong_size_argument_is_rejected() {
    assert_eq!(parse_size(""), None);
    assert_eq!(parse_size("abc"), None);
    assert_eq!(parse_size("1920"), None);
    assert_eq!(parse_size("0x100"), None);
    assert_eq!(parse_size("99999x10"), None);
}

#[test]
fn size_edges_and_separators() {
    assert_eq!(parse_size("16*16384"), Some((16, 16384)));
    assert_eq!(parse_size("15x100"), None);
    assert_eq!(parse_size("100x16385"), None);
    assert_eq!(parse_size("+640x\t480"), Some((640, 480)));
    assert_eq!(parse_size("640x-480"), None);
    assert_eq!(parse_size("99999999999999999999999x100"), None);
    assert_eq!(size_of_lowered("300x200x100"), None);
    assert_eq!(size_of_lowered("3 0 0 x 2 0 0"), Some((300, 200)));
    assert_eq!(size_of_lowered("300X200"), None, "only lower case is expected here");
}

#[test]
fn hex_colour_round_trip_and_errors() {
    assert_eq!(to_hex([255, 0, 16, 128]), "FF001080");
    assert_eq!(from_hex("FF001080"), Some([255, 0, 16, 128]));
    assert_eq!(from_hex("#ff0010"), Some([255, 0, 16, 255]));
    assert_eq!(from_hex("12 34 56"), Some([0x12, 0x34, 0x56, 255]));
    assert_eq!(from_hex("12345"), None);
    assert_eq!(from_hex("123456789"), None);
    assert_eq!(from_hex(""), None);
    for c in [[0u8, 0, 0, 0], [1, 2, 3, 4], [255, 255, 255, 255], [171, 205, 239, 18]] {
        assert_eq!(from_hex(&to_hex(c)), Some(c));
    }
}

#[test]
fn row_of_index_counts_from_the_top() {
    assert_eq!(tpaint::layout::row_of_index(&[3, 2, 1, 0], 1, 2), 2);
    assert_eq!(tpaint::layout::row_of_index(&[3, 2, 1, 0], 3, 7), 0);
    assert_eq!(tpaint::layout::row_of_index(&[3, 1], 2, 5), 5, "скрытый слой");
}
